use config_language::lexer::lexer;
use config_language::parser::{parse, Error, Expr, ObjectMap};
use config_language::span::Span;
use config_language::token::TokenKind;
use config_language::evaluate;

fn show(e: &Expr) -> String {
    match e {
        Expr::Array(items, _) => {
            let parts: Vec<String> = items.iter().map(show).collect();
            format!("[{}]", parts.join(","))
        }
        Expr::Object(map, _) => {
            let mut parts = Vec::new();
            for i in 0..map.len() {
                let (k, v) = map.get_index(i).unwrap();
                parts.push(format!("{}={}", k, show(v)));
            }
            format!("{{{}}}", parts.join(","))
        }
        Expr::String(s, _) => format!("\"{}\"", s),
        Expr::Ident(s, _) => s.clone(),
    }
}

fn parsed(input: &str) -> String {
    show(&parse(input).unwrap())
}

fn span_of(e: &Expr) -> Span {
    match e {
        Expr::Array(_, sp) | Expr::Object(_, sp) | Expr::String(_, sp) | Expr::Ident(_, sp) => *sp,
    }
}

fn nested(n: usize) -> String {
    format!("{}{}", "[".repeat(n), "]".repeat(n))
}

#[test]
fn end_to_end_example() {
    let e = parse("{ name = \"bob\", tags = [ x, y, ] }").unwrap();
    assert_eq!(show(&e), "{name=\"bob\",tags=[x,y]}");
    match &e {
        Expr::Object(map, sp) => {
            assert_eq!(*sp, Span::new(0, 1));
            assert!(matches!(map.get("name"), Some(Expr::String(s, _)) if s == "bob"));
            assert!(map.get("missing").is_none());
        }
        _ => panic!("expected an object"),
    }
}

#[test]
fn trailing_comma_is_accepted() {
    assert_eq!(parsed("[a, b,]"), parsed("[a, b]"));
    assert_eq!(parsed("[a, b,]"), "[a,b]");
    assert_eq!(parsed("{ k = v, }"), "{k=v}");
}

#[test]
fn duplicate_comma_is_rejected() {
    match parse("[a,, b]") {
        Err(Error::UnexpectedToken(msg, tok)) => {
            assert_eq!(msg, "expected expression");
            assert!(matches!(tok.kind, TokenKind::Comma));
            assert_eq!(tok.span, Span::new(3, 4));
        }
        other => panic!("unexpected result {:?}", other),
    }
}

#[test]
fn missing_comma_is_rejected() {
    match parse("[a b]") {
        Err(Error::UnexpectedToken(msg, tok)) => {
            assert_eq!(msg, "comma");
            assert!(matches!(tok.kind, TokenKind::Ident(ref s) if s == "b"));
            assert_eq!(tok.span, Span::new(3, 4));
        }
        other => panic!("unexpected result {:?}", other),
    }
}

#[test]
fn depth_guard() {
    assert!(parse(&nested(50)).is_ok());
    assert!(parse(&nested(1)).is_ok());
    match parse(&nested(51)) {
        Err(Error::TooNested(sp)) => assert_eq!(sp, Span::new(50, 51)),
        other => panic!("unexpected result {:?}", other),
    }
    assert!(matches!(parse(&nested(80)), Err(Error::TooNested(_))));
    let inner = format!("{}x{}", "[".repeat(50), "]".repeat(50));
    assert!(parse(&inner).is_ok());
}

#[test]
fn unterminated_string() {
    match parse("\"abc") {
        Err(Error::UnterminatedStringLiteral(sp)) => assert_eq!(sp, Span::new(0, 1)),
        other => panic!("unexpected result {:?}", other),
    }
    match parse("  \"abc") {
        Err(Error::UnterminatedStringLiteral(sp)) => assert_eq!(sp.start(), 2),
        other => panic!("unexpected result {:?}", other),
    }
}

#[test]
fn invalid_character() {
    match parse("[a, @]") {
        Err(Error::InvalidCharacter(c, sp)) => {
            assert_eq!(c, '@');
            assert_eq!(sp, Span::new(4, 5));
        }
        other => panic!("unexpected result {:?}", other),
    }
}

#[test]
fn string_span_covers_quotes() {
    let toks = lexer("  \"abc\"").unwrap();
    assert_eq!(toks.len(), 1);
    assert_eq!(toks[0].span, Span::new(2, 7));
    assert!(matches!(toks[0].kind, TokenKind::String(ref s) if s == "abc"));
    let e = parse("  \"abc\"").unwrap();
    assert_eq!(span_of(&e), Span::new(2, 7));
}

#[test]
fn punctuation_spans_are_one_byte() {
    let toks = lexer("[ ] { } = ,").unwrap();
    assert_eq!(toks.len(), 6);
    for t in &toks {
        assert_eq!(t.span.end() - t.span.start(), 1);
    }
    assert_eq!(toks[5].span, Span::new(10, 11));
}

#[test]
fn spans_count_bytes() {
    let toks = lexer("\"é\" x").unwrap();
    assert_eq!(toks[0].span, Span::new(0, 4));
    assert_eq!(toks[1].span, Span::new(5, 6));
}

#[test]
fn whitespace_and_comments_do_not_change_the_tree() {
    let plain = parsed("{a=[x,\"y\"],b=z}");
    let spaced = parsed("# head\n{ a = [ x , \"y\" ] ,\t# note\n b = z }\n# tail");
    assert_eq!(plain, spaced);
    assert_eq!(parsed("\u{3000}x"), "x");
}

#[test]
fn identifier_at_end_of_input() {
    let toks = lexer("abc").unwrap();
    assert_eq!(toks.len(), 1);
    assert!(matches!(toks[0].kind, TokenKind::Ident(ref s) if s == "abc"));
    assert_eq!(toks[0].span, Span::new(0, 3));
    assert_eq!(parsed("abc"), "abc");
    assert_eq!(parsed("héllo2"), "héllo2");
}

#[test]
fn string_keeps_backslashes() {
    assert_eq!(parsed("\"a\\n\""), "\"a\\n\"");
}

#[test]
fn comment_runs_to_end_of_line() {
    let toks = lexer("# all [ of this\n]").unwrap();
    assert_eq!(toks.len(), 1);
    assert!(matches!(toks[0].kind, TokenKind::BracketClose));
    assert_eq!(lexer("# only a comment").unwrap().len(), 0);
}

#[test]
fn empty_input_is_end_of_file() {
    assert!(matches!(parse(""), Err(Error::UnexpectedEndOfFile)));
    assert!(matches!(parse("[a,"), Err(Error::UnexpectedEndOfFile)));
    assert!(matches!(parse("{ k ="), Err(Error::UnexpectedEndOfFile)));
}

#[test]
fn object_key_must_be_a_name() {
    match parse("{ \"k\" = v }") {
        Err(Error::UnexpectedToken(msg, _)) => assert_eq!(msg, "expected name"),
        other => panic!("unexpected result {:?}", other),
    }
    match parse("{ k v }") {
        Err(Error::UnexpectedToken(msg, tok)) => {
            assert_eq!(msg, "expected Equal");
            assert!(matches!(tok.kind, TokenKind::Ident(ref s) if s == "v"));
        }
        other => panic!("unexpected result {:?}", other),
    }
}

#[test]
fn closing_token_is_not_an_expression() {
    match parse("]") {
        Err(Error::UnexpectedToken(msg, tok)) => {
            assert_eq!(msg, "expected expression");
            assert!(matches!(tok.kind, TokenKind::BracketClose));
        }
        other => panic!("unexpected result {:?}", other),
    }
}

#[test]
fn trailing_tokens_are_rejected() {
    match parse("\"a\" \"b\"") {
        Err(Error::UnexpectedToken(msg, tok)) => {
            assert_eq!(msg, "end of file");
            assert_eq!(tok.span, Span::new(4, 7));
        }
        other => panic!("unexpected result {:?}", other),
    }
}

#[test]
fn duplicate_key_keeps_first_place_and_last_value() {
    assert_eq!(parsed("{ a = x, b = y, a = z }"), "{a=z,b=y}");
}

#[test]
fn object_map_insert_and_lookup() {
    let mut m = ObjectMap::new();
    assert_eq!(m.len(), 0);
    m.insert("k".to_string(), Expr::Ident("v".to_string(), Span::new(0, 1)));
    m.insert("j".to_string(), Expr::Ident("w".to_string(), Span::new(1, 2)));
    assert_eq!(m.len(), 2);
    assert_eq!(m.get_index(1).unwrap().0, "j");
    assert!(m.get_index(2).is_none());
    assert!(matches!(m.get("k"), Some(Expr::Ident(s, _)) if s == "v"));
}

#[test]
fn messages_and_spans() {
    let (msg, sp) = parse("@").unwrap_err().into_msg_and_span();
    assert_eq!(msg, "invalid character: @");
    assert_eq!(sp, Span::new(0, 1));
    let (msg, sp) = parse("[a b]").unwrap_err().into_msg_and_span();
    assert_eq!(msg, "unexpected token, expected comma");
    assert_eq!(sp, Span::new(3, 4));
    let (msg, sp) = parse("[").unwrap_err().into_msg_and_span();
    assert_eq!(msg, "unexpected end of file");
    assert_eq!(sp, Span::empty());
    let (msg, _) = parse(&nested(60)).unwrap_err().into_msg_and_span();
    assert_eq!(msg, "too nested");
    let (msg, _) = parse("\"x").unwrap_err().into_msg_and_span();
    assert_eq!(msg, "unterminated string literal");
}

#[test]
fn evaluate_reports_parse_errors() {
    assert!(evaluate("{ a = b }").is_ok());
    let err = evaluate("{ a = }").unwrap_err();
    let (msg, sp) = err.into_msg_and_span();
    assert_eq!(msg, "unexpected token, expected expected expression");
    assert_eq!(sp, Span::new(6, 7));
}
