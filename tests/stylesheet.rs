use css::{lex, parse, string_to_stylesheet, Rule, SExpr, Selector, Token};

fn compile(input: &str) -> String {
    string_to_stylesheet(input.to_string()).unwrap()
}

#[test]
fn renders_single_block() {
    assert_eq!(compile("(body color red)"), " body {\n    color: red;\n}\n");
}

#[test]
fn renders_list_value_space_joined() {
    assert_eq!(
        compile("(body margin (0 8px 0 8px))"),
        " body {\n    margin: 0 8px 0 8px;\n}\n"
    );
}

#[test]
fn bare_and_listed_values_render_alike() {
    assert_eq!(compile("(a m x)"), compile("(a m (x))"));
}

#[test]
fn node_without_rules_only_prefixes_children() {
    assert_eq!(
        compile("(ul (li text-decoration none))"),
        " ul li {\n    text-decoration: none;\n}\n"
    );
}

#[test]
fn top_level_groups_render_in_order() {
    assert_eq!(
        compile("(body color red)\n(p color blue)"),
        " body {\n    color: red;\n}\n p {\n    color: blue;\n}\n"
    );
}

#[test]
fn function_value_renders_unchanged() {
    assert_eq!(
        compile("(body background-color var(--text-color, red))"),
        " body {\n    background-color: var(--text-color, red);\n}\n"
    );
}

#[test]
fn children_follow_the_block_directly() {
    assert_eq!(
        compile("(a x y (b p q) (c r s))"),
        " a {\n    x: y;\n}\n a b {\n    p: q;\n}\n a c {\n    r: s;\n}\n"
    );
}

#[test]
fn comma_selector_gives_one_line_per_piece() {
    assert_eq!(compile("(h1,h2 color red)"), " h1,\n h2 {\n    color: red;\n}\n");
}

#[test]
fn comma_selector_prefixes_each_piece() {
    assert_eq!(
        compile("(nav (a,b color red))"),
        " nav a,\n nav b {\n    color: red;\n}\n"
    );
}

#[test]
fn trailing_comma_keeps_no_empty_piece() {
    assert_eq!(compile("(a, color red)"), " a, {\n    color: red;\n}\n");
}

#[test]
fn render_with_parent_prefix() {
    let node = SExpr {
        selector: Selector("p".into()),
        rules: vec![Rule {
            property: "margin".into(),
            value: vec!["0".into(), "auto".into()],
        }],
        children: vec![],
    };
    assert_eq!(node.to_stylesheet(" main"), " main p {\n    margin: 0 auto;\n}\n");
}

#[test]
fn empty_document_renders_nothing() {
    assert_eq!(compile(""), "");
    assert_eq!(compile("  \n\t "), "");
}

#[test]
fn unclosed_group_renders_nothing() {
    assert_eq!(compile("(body color red"), "");
}

#[test]
fn unopened_close_is_an_error() {
    assert!(string_to_stylesheet("(body color red))".to_string()).is_err());
    assert!(string_to_stylesheet(")(body color red)".to_string()).is_err());
    let tokens = lex(")".to_string()).unwrap();
    assert!(parse(tokens).is_err());
}

#[test]
fn malformed_groups_are_dropped() {
    assert_eq!(compile("((x) a b)(p color blue)"), " p {\n    color: blue;\n}\n");
    assert_eq!(compile("(a b)(p color blue)"), " p {\n    color: blue;\n}\n");
    assert_eq!(compile("(a m ())(p color blue)"), " p {\n    color: blue;\n}\n");
    assert_eq!(compile("(a (b c))"), "");
}

#[test]
fn word_outside_group_is_dropped() {
    assert_eq!(compile("x (p color blue)"), " p {\n    color: blue;\n}\n");
}

#[test]
fn lex_splits_on_any_whitespace() {
    let tokens = lex("(a\tb\r\nc)".to_string()).unwrap();
    assert_eq!(
        tokens,
        vec![
            Token::LParen,
            Token::String("a".into()),
            Token::String("b".into()),
            Token::String("c".into()),
            Token::RParen,
        ]
    );
}

#[test]
fn lex_keeps_nested_parentheses_in_word() {
    let tokens = lex("(a x calc(1px + (2px)))".to_string()).unwrap();
    assert_eq!(
        tokens,
        vec![
            Token::LParen,
            Token::String("a".into()),
            Token::String("x".into()),
            Token::String("calc(1px + (2px))".into()),
            Token::RParen,
        ]
    );
}

#[test]
fn lex_word_open_at_end_keeps_rest() {
    let tokens = lex("a(b c".to_string()).unwrap();
    assert_eq!(tokens, vec![Token::String("a(b c".into())]);
}

#[test]
fn relexing_joined_tokens_gives_same_tokens() {
    let input = "(body margin (0 8px) background var(--x, red)def (p color blue))";
    let tokens = lex(input.to_string()).unwrap();
    let joined = tokens
        .iter()
        .map(|t| match t {
            Token::String(s) => s.clone(),
            Token::LParen => "(".to_string(),
            Token::RParen => ")".to_string(),
        })
        .collect::<Vec<String>>()
        .join(" ");
    assert_eq!(lex(joined).unwrap(), tokens);
}

#[test]
fn blocks_count_nodes_with_rules() {
    let out = compile("(a (b c d (e)) (f g h (i j k)))");
    assert_eq!(out.matches('{').count(), 3);
}
