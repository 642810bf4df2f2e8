//! Tests of the tokenizer: the grammar's regular cases, every malformed
//! fallback, and the escape sequence.

use tempura::parse_tmpl;
use tempura::Token;
use tempura::Token::Val;
use tempura::Token::Var;

#[test]
fn test_parse_tmpl() {
    let f = parse_tmpl;
    let l = |s: &str| -> Token { Val(s.to_string()) };
    let r = |s: &str| -> Token { Var(s.to_string()) };
    assert_eq!(f(""), vec![]);
    assert_eq!(
        f("ab{{cd}}ef{{gh}}"),
        vec![l("ab"), r("cd"), l("ef"), r("gh")]
    );
    assert_eq!(f("a"), vec![l("a")]);
    assert_eq!(f("a{"), vec![l("a{")]);
    assert_eq!(f("a{b"), vec![l("a{b")]);
    assert_eq!(f("a{{"), vec![l("a{{")]);
    assert_eq!(f("a{{b"), vec![l("a{{b")]);
    assert_eq!(f("a{{b}"), vec![l("a{{b}")]);
    assert_eq!(f("a{{b}c"), vec![l("a{{b}c")]);
    assert_eq!(f("a{{b}}"), vec![l("a"), r("b")]);
    assert_eq!(f("a{{b}}c"), vec![l("a"), r("b"), l("c")]);
    assert_eq!(f("{{a}}"), vec![r("a")]);
    assert_eq!(f("{{a}}b"), vec![r("a"), l("b")]);
    assert_eq!(f("{{a}}{"), vec![r("a"), l("{")]);
    assert_eq!(f("{{a}}{b"), vec![r("a"), l("{b")]);
    assert_eq!(f("{{a}}{{"), vec![r("a"), l("{{")]);
    assert_eq!(f("{{a}}{{b"), vec![r("a"), l("{{b")]);
    assert_eq!(f("{{a}}{{b}"), vec![r("a"), l("{{b}")]);
    assert_eq!(f("{{a}}{{b}c"), vec![r("a"), l("{{b}c")]);
    assert_eq!(f("{{a}}{{b}}"), vec![r("a"), r("b")]);
    assert_eq!(f("{{a}}{{b}}c"), vec![r("a"), r("b"), l("c")]);
    // escape {{
    assert_eq!(f(r#"{{""#), vec![l(r#"{{""#)]);
    assert_eq!(f(r#"{{"{"#), vec![l(r#"{{"{"#)]);
    assert_eq!(f(r#"{{"{{"#), vec![l(r#"{{"{{"#)]);
    assert_eq!(f(r#"{{"{{""#), vec![l(r#"{{"{{""#)]);
    assert_eq!(f(r#"{{"{{"}"#), vec![l(r#"{{"{{"}"#)]);
    assert_eq!(f(r#"{{"{{"}}"#), vec![l(r#"{{"#)]);
    assert_eq!(f(r#"{{a"{{"}}"#), vec![l(r#"{{a"{{"}}"#)]);
    // space is not allowed
    assert_eq!(f(r#"{{ a }}"#), vec![l(r#"{{ a }}"#)]);
    assert_eq!(f(r#"{{ "{{" }}"#), vec![l(r#"{{ "{{" }}"#)]);
}

#[test]
fn test_no_braces_single_literal() {
    // a text without `{{` is one literal token; an empty text is none
    assert_eq!(parse_tmpl("plain file name.txt"), vec![Token::Val("plain file name.txt".to_string())]);
    assert_eq!(parse_tmpl("a{b}c"), vec![Token::Val("a{b}c".to_string())]);
    assert_eq!(parse_tmpl(""), vec![]);
}

#[test]
fn test_wellformed_variable_between_literals() {
    assert_eq!(
        parse_tmpl("x{{name}}y"),
        vec![
            Token::Val("x".to_string()),
            Token::Var("name".to_string()),
            Token::Val("y".to_string())
        ]
    );
    assert_eq!(
        parse_tmpl("x{{A_9}}y"),
        vec![
            Token::Val("x".to_string()),
            Token::Var("A_9".to_string()),
            Token::Val("y".to_string())
        ]
    );
}

#[test]
fn test_unterminated_substitution_keeps_characters() {
    // reassembling the literal tokens of an unterminated `{{...` loses nothing
    for src in ["{{", "a{{b", "a{{b}", "x{{name", "x{{name}y", "{{a}}tail{{b}"] {
        let mut rebuilt = String::new();
        for t in parse_tmpl(src) {
            match t {
                Token::Val(s) => rebuilt.push_str(&s),
                Token::Var(n) => {
                    rebuilt.push_str("{{");
                    rebuilt.push_str(&n);
                    rebuilt.push_str("}}");
                }
            }
        }
        assert_eq!(rebuilt, src);
    }
}

#[test]
fn test_escape_exactness() {
    // the nine-character escape yields exactly the literal `{{` ...
    assert_eq!(parse_tmpl(r#"{{"{{"}}"#), vec![Token::Val("{{".to_string())]);
    // ... and braces beyond the escape sequence stay literal
    assert_eq!(parse_tmpl(r#"{{"{{"}}}}"#), vec![Token::Val("{{}}".to_string())]);
}
