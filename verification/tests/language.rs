use asalang::interpreter::AsaErrorKind;
use asalang::interpreter::Interpreter;
use asalang::interpreter::Value;
use asalang::parser::boolean;
use asalang::parser::identifier;
use asalang::parser::number;
use asalang::parser::parse;
use asalang::parser::program;
use asalang::parser::string;
use asalang::parser::MathOp;
use asalang::parser::Node;
use asalang::parser::ParseError;
use asalang::parser::Token;
use asalang::parser::TokenKind;

fn lex(src: &str) -> Vec<Token> {
    let mut toks = Vec::new();
    let mut i = 0;
    while i < src.len() {
        let rest = &src[i..];
        let c = rest.chars().next().unwrap();
        if c.is_whitespace() {
            i += c.len_utf8();
            continue;
        }
        let mut kw = None;
        for (w, k) in [
            ("true", TokenKind::True),
            ("false", TokenKind::False),
            ("return", TokenKind::Return),
            ("let", TokenKind::Let),
            ("fn", TokenKind::Fn),
        ] {
            if rest.starts_with(w) {
                let boundary = match rest.as_bytes().get(w.len()) {
                    None => true,
                    Some(b) => !(*b as char).is_ascii_alphanumeric(),
                };
                if boundary {
                    kw = Some((w.len(), k));
                    break;
                }
            }
        }
        if let Some((l, k)) = kw {
            toks.push(Token { kind: k, lexeme: rest[..l].to_string() });
            i += l;
            continue;
        }
        let kind = if c.is_ascii_alphabetic() {
            TokenKind::Alpha
        } else if c.is_ascii_digit() {
            TokenKind::Digit
        } else {
            match c {
                '(' => TokenKind::LeftParen,
                ')' => TokenKind::RightParen,
                '{' => TokenKind::LeftCurly,
                '}' => TokenKind::RightCurly,
                '"' => TokenKind::Quote,
                '/' => TokenKind::Slash,
                ',' => TokenKind::Comma,
                ';' => TokenKind::Semicolon,
                '+' => TokenKind::Plus,
                '-' => TokenKind::Dash,
                '=' => TokenKind::Equal,
                other => panic!("unsupported character {other:?}"),
            }
        };
        toks.push(Token { kind, lexeme: c.to_string() });
        i += c.len_utf8();
    }
    toks
}

fn eval_fragment(src: &str) -> Result<Value, AsaErrorKind> {
    let tokens = lex(src);
    let tree = parse(&tokens).expect("the fragment must parse");
    let mut interpreter = Interpreter::new();
    interpreter.exec(&tree)
}

#[test]
fn trailing_tokens_rejected() {
    let tokens = lex("123 )");
    assert_eq!(parse(&tokens), Err(ParseError::TrailingTokens));
}

#[test]
fn trailing_operator_rejected() {
    let tokens = lex("1 +");
    assert_eq!(parse(&tokens), Err(ParseError::TrailingTokens));
}

#[test]
fn trailing_curly_rejected() {
    let tokens = lex("fn main(){return 5;} }");
    assert_eq!(parse(&tokens), Err(ParseError::TrailingTokens));
}

#[test]
fn prefix_consumed_exactly() {
    let tokens = lex("fn main(){return 5;}");
    let (_node, pos) = program(&tokens, 0).expect("the program must parse");
    assert_eq!(pos, tokens.len());
}

#[test]
fn number_at_i32_max() {
    assert_eq!(eval_fragment("2147483647"), Ok(Value::Number(2147483647)));
}

#[test]
fn number_above_i32_max_rejected() {
    let tokens = lex("2147483648");
    assert_eq!(parse(&tokens), Err(ParseError::NumberOutOfRange));
}

#[test]
fn digit_token_with_bad_lexeme_rejected() {
    let tokens = vec![Token { kind: TokenKind::Digit, lexeme: "x".to_string() }];
    assert_eq!(number(&tokens, 0), Err(ParseError::MalformedToken));
}

#[test]
fn identifier_concatenates_lexemes() {
    let tokens = lex("hello123");
    let (node, pos) = identifier(&tokens, 0).expect("an identifier must parse");
    assert_eq!(pos, tokens.len());
    assert_eq!(node, Node::Identifier { value: "hello123".to_string() });
}

#[test]
fn boolean_priority_over_identifier() {
    let tokens = lex("true");
    let (node, _pos) = boolean(&tokens, 0).expect("a boolean must parse");
    assert_eq!(node, Node::Bool { value: true });
}

#[test]
fn string_empty() {
    let tokens = lex(r#""""#);
    let (node, pos) = string(&tokens, 0).expect("a string must parse");
    assert_eq!(pos, 2);
    assert_eq!(node, Node::String { value: String::new() });
}

#[test]
fn frame_isolation_after_call() {
    // `y` lives only in the callee's frame; after the call it must be
    // unresolvable from the caller's frame.
    let r = eval_fragment("fn foo(){let y = 7; return y;} let a = foo(); y");
    assert_eq!(r, Err(AsaErrorKind::UndefinedVariable));
}

#[test]
fn call_result_visible_in_caller() {
    let r = eval_fragment("fn foo(){let y = 7; return y;} let a = foo(); a + 1");
    assert_eq!(r, Ok(Value::Number(8)));
}

#[test]
fn arity_mismatch_reports_counts() {
    let r = eval_fragment("fn foo(a){return a;} let x = foo(1,2);");
    assert_eq!(r, Err(AsaErrorKind::ArityMismatch { expected: 1, actual: 2 }));
}

#[test]
fn runaway_recursion_hits_depth_limit() {
    let tokens = lex("fn main(){return main();}");
    let tree = parse(&tokens).expect("the program must parse");
    let mut interpreter = Interpreter::new();
    interpreter.exec(&tree).expect("the definition must evaluate");
    assert_eq!(interpreter.start_main(vec![]), Err(AsaErrorKind::DepthLimitExceeded));
}

#[test]
fn depth_limit_is_configurable() {
    let tokens = lex("fn a(){return 1;} fn b(){return a();} fn main(){return b();}");
    let tree = parse(&tokens).expect("the program must parse");

    let mut deep_enough = Interpreter::with_depth_limit(3);
    deep_enough.exec(&tree).expect("the definitions must evaluate");
    assert_eq!(deep_enough.start_main(vec![]), Ok(Value::Number(1)));

    let mut too_shallow = Interpreter::with_depth_limit(2);
    too_shallow.exec(&tree).expect("the definitions must evaluate");
    assert_eq!(too_shallow.start_main(vec![]), Err(AsaErrorKind::DepthLimitExceeded));
}

#[test]
fn redefinition_overwrites() {
    let r = eval_fragment("fn foo(){return 1;} fn foo(){return 2;} foo()");
    assert_eq!(r, Ok(Value::Number(2)));
}

#[test]
fn math_non_numeric_operand_fails() {
    // A bare `true + 1` never reaches the evaluator: the expression
    // alternative `boolean` wins first, leaving `+ 1` as trailing tokens.
    assert_eq!(eval_fragment("let b = true; b + 1"), Err(AsaErrorKind::NonNumericOperand));
}

#[test]
fn math_overflow_reported() {
    assert_eq!(eval_fragment("2147483647 + 1"), Err(AsaErrorKind::NumberOverflow));
}

#[test]
fn multiplication_evaluates() {
    let node = Node::MathExpression {
        op: MathOp::Mul,
        children: vec![Node::Number { value: 6 }, Node::Number { value: 7 }],
    };
    let mut interpreter = Interpreter::new();
    assert_eq!(interpreter.exec(&node), Ok(Value::Number(42)));
}

#[test]
fn division_truncates_toward_zero() {
    let mut interpreter = Interpreter::new();
    let pos = Node::MathExpression {
        op: MathOp::Div,
        children: vec![Node::Number { value: 7 }, Node::Number { value: -2 }],
    };
    assert_eq!(interpreter.exec(&pos), Ok(Value::Number(-3)));
    let neg = Node::MathExpression {
        op: MathOp::Div,
        children: vec![Node::Number { value: -7 }, Node::Number { value: 2 }],
    };
    assert_eq!(interpreter.exec(&neg), Ok(Value::Number(-3)));
}

#[test]
fn division_by_zero_reported() {
    let node = Node::MathExpression {
        op: MathOp::Div,
        children: vec![Node::Number { value: 1 }, Node::Number { value: 0 }],
    };
    let mut interpreter = Interpreter::new();
    assert_eq!(interpreter.exec(&node), Err(AsaErrorKind::DivideByZero));
}

#[test]
fn division_min_by_minus_one_overflows() {
    let node = Node::MathExpression {
        op: MathOp::Div,
        children: vec![Node::Number { value: i32::MIN }, Node::Number { value: -1 }],
    };
    let mut interpreter = Interpreter::new();
    assert_eq!(interpreter.exec(&node), Err(AsaErrorKind::NumberOverflow));
}

#[test]
fn statement_node_rejects_bare_expression() {
    let stmt = Node::Statement {
        children: vec![Node::Expression { children: vec![Node::Number { value: 1 }] }],
    };
    let mut interpreter = Interpreter::new();
    assert_eq!(interpreter.exec(&stmt), Err(AsaErrorKind::InvalidStatement));
}

#[test]
fn stray_node_kinds_unsupported() {
    let mut interpreter = Interpreter::new();
    assert_eq!(interpreter.exec(&Node::Null), Err(AsaErrorKind::UnsupportedNode));
    let comment = Node::Comment { value: "note".to_string() };
    assert_eq!(interpreter.exec(&comment), Err(AsaErrorKind::UnsupportedNode));
}

#[test]
fn program_continues_past_failed_item() {
    // The program's result is the LAST item's result; an earlier failure is
    // discarded, but earlier side effects persist.
    let r = eval_fragment("nosuch() 1 + 2");
    assert_eq!(r, Ok(Value::Number(3)));
}

#[test]
fn wrong_child_count_is_structural_error() {
    let lopsided = Node::MathExpression {
        op: MathOp::Add,
        children: vec![Node::Number { value: 1 }],
    };
    let mut interpreter = Interpreter::new();
    assert_eq!(interpreter.exec(&lopsided), Err(AsaErrorKind::InvalidStructure));
}

#[test]
fn unparseable_input_is_no_match() {
    let tokens = lex(";");
    assert_eq!(parse(&tokens), Err(ParseError::NoMatch));
}

#[test]
fn start_main_passes_arguments() {
    let tokens = lex("fn main(a){return a;}");
    let tree = parse(&tokens).expect("the program must parse");
    let mut interpreter = Interpreter::new();
    interpreter.exec(&tree).expect("the definition must evaluate");
    let group = Node::FunctionArguments {
        children: vec![Node::Expression { children: vec![Node::Number { value: 9 }] }],
    };
    assert_eq!(interpreter.start_main(vec![group]), Ok(Value::Number(9)));
}
