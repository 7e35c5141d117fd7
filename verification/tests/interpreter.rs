use asalang::interpreter::AsaErrorKind;
use asalang::interpreter::Interpreter;
use asalang::interpreter::Value;
use asalang::parser::parse;
use asalang::parser::Token;
use asalang::parser::TokenKind;

fn lx(src: &str) -> Vec<Token> {
    let mut toks = Vec::new();
    let mut i = 0;
    while i < src.len() {
        let rest = &src[i..];
        let c = rest.chars().next().unwrap();
        if c.is_whitespace() {
            i += c.len_utf8();
            continue;
        }
        let mut kw = None;
        for (w, k) in [
            ("true", TokenKind::True),
            ("false", TokenKind::False),
            ("return", TokenKind::Return),
            ("let", TokenKind::Let),
            ("fn", TokenKind::Fn),
        ] {
            if rest.starts_with(w) {
                let boundary = match rest.as_bytes().get(w.len()) {
                    None => true,
                    Some(b) => !(*b as char).is_ascii_alphanumeric(),
                };
                if boundary {
                    kw = Some((w.len(), k));
                    break;
                }
            }
        }
        if let Some((l, k)) = kw {
            toks.push(Token { kind: k, lexeme: rest[..l].to_string() });
            i += l;
            continue;
        }
        let kind = if c.is_ascii_alphabetic() {
            TokenKind::Alpha
        } else if c.is_ascii_digit() {
            TokenKind::Digit
        } else {
            match c {
                '(' => TokenKind::LeftParen,
                ')' => TokenKind::RightParen,
                '{' => TokenKind::LeftCurly,
                '}' => TokenKind::RightCurly,
                '"' => TokenKind::Quote,
                '/' => TokenKind::Slash,
                ',' => TokenKind::Comma,
                ';' => TokenKind::Semicolon,
                '+' => TokenKind::Plus,
                '-' => TokenKind::Dash,
                '=' => TokenKind::Equal,
                other => panic!("unsupported character {other:?}"),
            }
        };
        toks.push(Token { kind, lexeme: c.to_string() });
        i += c.len_utf8();
    }
    toks
}

fn run_fragment(src: &str) -> Result<Value, AsaErrorKind> {
    let tokens = lx(src);
    let tree = parse(&tokens).expect("the fragment must parse");
    let mut interpreter = Interpreter::new();
    interpreter.exec(&tree)
}

fn run_program(src: &str) -> Result<Value, AsaErrorKind> {
    let tokens = lx(src);
    let tree = parse(&tokens).expect("the program must parse");
    let mut interpreter = Interpreter::new();
    interpreter.exec(&tree).expect("definitions must evaluate");
    interpreter.start_main(vec![])
}

#[test]
fn interpreter_numeric() {
    assert_eq!(run_fragment(r#"123"#), Ok(Value::Number(123)));
}

#[test]
fn interpreter_string() {
    assert_eq!(run_fragment(r#""helloworld""#), Ok(Value::String("helloworld".to_string())));
}

#[test]
fn interpreter_bool_true() {
    assert_eq!(run_fragment(r#"true"#), Ok(Value::Bool(true)));
}

#[test]
fn interpreter_bool_false() {
    assert_eq!(run_fragment(r#"false"#), Ok(Value::Bool(false)));
}

#[test]
fn interpreter_identifier() {
    assert_eq!(run_fragment(r#"x"#), Err(AsaErrorKind::UndefinedVariable));
}

#[test]
fn interpreter_function_call() {
    assert_eq!(run_fragment(r#"foo()"#), Err(AsaErrorKind::UndefinedFunction));
}

#[test]
fn interpreter_function_call_one_arg() {
    assert_eq!(run_fragment(r#"foo(a)"#), Err(AsaErrorKind::UndefinedFunction));
}

#[test]
fn interpreter_function_call_more_args() {
    assert_eq!(run_fragment(r#"foo(a,b,c)"#), Err(AsaErrorKind::UndefinedFunction));
}

#[test]
fn interpreter_variable_define() {
    assert_eq!(run_fragment(r#"let x = 123;"#), Ok(Value::Number(123)));
}

#[test]
fn interpreter_variable_init() {
    assert_eq!(run_fragment(r#"let x = 1;"#), Ok(Value::Number(1)));
}

#[test]
fn interpreter_variable_bool() {
    assert_eq!(run_fragment(r#"let bool = true;"#), Ok(Value::Bool(true)));
}

#[test]
fn interpreter_variable_string() {
    assert_eq!(
        run_fragment(r#"let string = "HelloWorld";"#),
        Ok(Value::String("HelloWorld".to_string()))
    );
}

#[test]
fn interpreter_variable_init_no_space() {
    assert_eq!(run_fragment(r#"let x=1;"#), Ok(Value::Number(1)));
}

#[test]
fn interpreter_math() {
    assert_eq!(run_fragment(r#"1 + 1"#), Ok(Value::Number(2)));
}

#[test]
fn interpreter_math_no_space() {
    assert_eq!(run_fragment(r#"1-1"#), Ok(Value::Number(0)));
}

#[test]
fn interpreter_math_multiply() {
    assert_eq!(run_fragment(r#"2 + 4"#), Ok(Value::Number(6)));
}

#[test]
fn interpreter_assign_math() {
    assert_eq!(run_fragment(r#"let x = 1 + 1;"#), Ok(Value::Number(2)));
}

#[test]
fn interpreter_assign_function() {
    assert_eq!(run_fragment(r#"let x = foo();"#), Err(AsaErrorKind::UndefinedFunction));
}

#[test]
fn interpreter_assign_function_arguments() {
    assert_eq!(run_fragment(r#"let x = foo(a,b,c);"#), Err(AsaErrorKind::UndefinedFunction));
}

#[test]
fn interpreter_define_function() {
    assert_eq!(
        run_program(r#"fn main(){return foo();} fn foo(){return 5;}"#),
        Ok(Value::Number(5))
    );
}

#[test]
fn interpreter_define_function_args() {
    assert_eq!(
        run_program(r#"fn main(){return foo(1,2);} fn foo(a,b){return a+b;}"#),
        Ok(Value::Number(3))
    );
}

#[test]
fn interpreter_define_function_more_statement() {
    assert_eq!(
        run_program(
            r#"fn main() {
  return foo();
}
fn foo(){
  let x = 5;
  return x;
}"#
        ),
        Ok(Value::Number(5))
    );
}

#[test]
fn interpreter_define_full_program() {
    assert_eq!(
        run_program(
            r#"fn foo(a,b,c) {
  let x = a + 1;
  let y = bar(c + b);
  return x + y;
}

fn bar(a) {
  return a + 3;
}

fn main() {
  return foo(1,2,3);
}"#
        ),
        Ok(Value::Number(10))
    );
}

#[test]
fn samir_interpreter_identifier_redefinition() {
    assert_eq!(run_fragment(r#"let x = 5; let x = x + 1;"#), Ok(Value::Number(6)));
}

#[test]
fn samir_interpreter_math_subtract() {
    assert_eq!(run_fragment(r#"5 - 3"#), Ok(Value::Number(2)));
}

#[test]
fn samir_interpreter_assign_math_spaces() {
    assert_eq!(run_fragment(r#"let    x    =    1    +   1;"#), Ok(Value::Number(2)));
}

#[test]
fn samir_interpreter_alphanumeric() {
    assert_eq!(run_fragment(r#"hello123"#), Err(AsaErrorKind::UndefinedVariable));
}

#[test]
fn samir_interpreter_variable_false() {
    assert_eq!(run_fragment(r#"let bool = false;"#), Ok(Value::Bool(false)));
}
