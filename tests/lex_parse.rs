use css::{lex, parse, Rule, SExpr, Selector, Token};

#[test]
fn lex_selector_empty() {
    let input = "(body)";
    let tokens = lex(input.into()).unwrap();
    let expected = vec![Token::LParen, Token::String("body".into()), Token::RParen];
    assert_eq!(tokens, expected);
}

#[test]
fn lex_selector_property_value() {
    let input = "(body color red)";
    let tokens = lex(input.into()).unwrap();
    let expected = vec![
        Token::LParen,
        Token::String("body".into()),
        Token::String("color".into()),
        Token::String("red".into()),
        Token::RParen,
    ];
    assert_eq!(tokens, expected);
}

#[test]
fn parse_selector_property_value() {
    let input = "(body color red)";
    let tokens = lex(input.into()).unwrap();
    let s_exprs = parse(tokens).unwrap();
    let expected = vec![SExpr {
        selector: Selector("body".into()),
        rules: vec![Rule {
            property: "color".into(),
            value: vec!["red".into()],
        }],
        children: vec![],
    }];
    assert_eq!(s_exprs, expected);
}

#[test]
fn lex_selector_hyphenated_property_value() {
    let input = "(body background-color red)";
    let tokens = lex(input.into()).unwrap();
    let expected = vec![
        Token::LParen,
        Token::String("body".into()),
        Token::String("background-color".into()),
        Token::String("red".into()),
        Token::RParen,
    ];
    assert_eq!(tokens, expected);
}

#[test]
fn lex_selector_property_list_value() {
    let input = "(body margin (0 8px 0 8px))";
    let tokens = lex(input.into()).unwrap();
    let expected = vec![
        Token::LParen,
        Token::String("body".into()),
        Token::String("margin".into()),
        Token::LParen,
        Token::String("0".into()),
        Token::String("8px".into()),
        Token::String("0".into()),
        Token::String("8px".into()),
        Token::RParen,
        Token::RParen,
    ];
    assert_eq!(tokens, expected);
}

#[test]
fn parse_selector_property_list_value() {
    let input = "(body margin (0 8px 0 8px))";
    let tokens = lex(input.into()).unwrap();
    let s_exprs = parse(tokens).unwrap();
    let expected = vec![SExpr {
        selector: Selector("body".into()),
        rules: vec![Rule {
            property: "margin".into(),
            value: vec!["0".into(), "8px".into(), "0".into(), "8px".into()],
        }],
        children: vec![],
    }];
    assert_eq!(s_exprs, expected);
}

#[test]
fn lex_selector_property_alphanumeric_value() {
    let input = "(body font-size 14px)";
    let tokens = lex(input.into()).unwrap();
    let expected = vec![
        Token::LParen,
        Token::String("body".into()),
        Token::String("font-size".into()),
        Token::String("14px".into()),
        Token::RParen,
    ];
    assert_eq!(tokens, expected);
}

#[test]
fn lex_selector_multiple_property_value() {
    let input = "(body background-color white color red)";
    let tokens = lex(input.into()).unwrap();
    let expected = vec![
        Token::LParen,
        Token::String("body".into()),
        Token::String("background-color".into()),
        Token::String("white".into()),
        Token::String("color".into()),
        Token::String("red".into()),
        Token::RParen,
    ];
    assert_eq!(tokens, expected);
}

#[test]
fn parse_selector_multiple_property_value() {
    let input = "(body background-color white color red)";
    let tokens = lex(input.into()).unwrap();
    let s_exprs = parse(tokens).unwrap();
    let expected = vec![SExpr {
        selector: Selector("body".into()),
        rules: vec![
            Rule {
                property: "background-color".into(),
                value: vec!["white".into()],
            },
            Rule {
                property: "color".into(),
                value: vec!["red".into()],
            },
        ],
        children: vec![],
    }];
    assert_eq!(s_exprs, expected);
}

#[test]
fn parse_selector_property_value_interleave_nested() {
    let input = "(body background-color white (p color blue) color red)";
    let tokens = lex(input.into()).unwrap();
    let s_exprs = parse(tokens).unwrap();
    let expected = vec![SExpr {
        selector: Selector("body".into()),
        rules: vec![
            Rule {
                property: "background-color".into(),
                value: vec!["white".into()],
            },
            Rule {
                property: "color".into(),
                value: vec!["red".into()],
            },
        ],
        children: vec![SExpr {
            selector: Selector("p".into()),
            rules: vec![Rule {
                property: "color".into(),
                value: vec!["blue".into()],
            }],
            children: vec![],
        }],
    }];
    assert_eq!(s_exprs, expected);
}

#[test]
fn lex_selector_nested_selector_property_value() {
    let input = "(ul (li text-decoration none))";
    let tokens = lex(input.into()).unwrap();
    let expected = vec![
        Token::LParen,
        Token::String("ul".into()),
        Token::LParen,
        Token::String("li".into()),
        Token::String("text-decoration".into()),
        Token::String("none".into()),
        Token::RParen,
        Token::RParen,
    ];
    assert_eq!(tokens, expected);
}

#[test]
fn parse_selector_nested_selector_property_value() {
    let input = "(ul (li text-decoration none))";
    let tokens = lex(input.into()).unwrap();
    let s_exprs = parse(tokens).unwrap();
    let expected = vec![SExpr {
        selector: Selector("ul".into()),
        rules: vec![],
        children: vec![SExpr {
            selector: Selector("li".into()),
            rules: vec![Rule {
                property: "text-decoration".into(),
                value: vec!["none".into()],
            }],
            children: vec![],
        }],
    }];
    assert_eq!(s_exprs, expected);
}

#[test]
fn parse_selector_property_value_nested_selector_property_value() {
    let input = "(ul padding 0 (li text-decoration none))";
    let tokens = lex(input.into()).unwrap();
    let s_exprs = parse(tokens).unwrap();
    let expected = vec![SExpr {
        selector: Selector("ul".into()),
        rules: vec![Rule {
            property: "padding".into(),
            value: vec!["0".into()],
        }],
        children: vec![SExpr {
            selector: Selector("li".into()),
            rules: vec![Rule {
                property: "text-decoration".into(),
                value: vec!["none".into()],
            }],
            children: vec![],
        }],
    }];
    assert_eq!(s_exprs, expected);
}

#[test]
fn parse_selector_multiple_property_value_nested_selector_property_value() {
    let input = "(ul padding 0 margin 0 (li padding-left 16px (a text-decoration none)))";
    let tokens = lex(input.into()).unwrap();
    let s_exprs = parse(tokens).unwrap();
    let expected = vec![SExpr {
        selector: Selector("ul".into()),
        rules: vec![
            Rule {
                property: "padding".into(),
                value: vec!["0".into()],
            },
            Rule {
                property: "margin".into(),
                value: vec!["0".into()],
            },
        ],
        children: vec![SExpr {
            selector: Selector("li".into()),
            rules: vec![Rule {
                property: "padding-left".into(),
                value: vec!["16px".into()],
            }],
            children: vec![SExpr {
                selector: Selector("a".into()),
                rules: vec![Rule {
                    property: "text-decoration".into(),
                    value: vec!["none".into()],
                }],
                children: vec![],
            }],
        }],
    }];
    assert_eq!(s_exprs, expected);
}

#[test]
fn lex_selector_property_value_nested_selector() {
    let input = "(body color red (table))";
    let tokens = lex(input.into()).unwrap();
    let expected = vec![
        Token::LParen,
        Token::String("body".into()),
        Token::String("color".into()),
        Token::String("red".into()),
        Token::LParen,
        Token::String("table".into()),
        Token::RParen,
        Token::RParen,
    ];
    assert_eq!(tokens, expected);
}

#[test]
fn lex_selector_hyphenated_property_parentheses_value() {
    let input = "(body background-color var(--text-color, red))";
    let tokens = lex(input.into()).unwrap();
    let expected = vec![
        Token::LParen,
        Token::String("body".into()),
        Token::String("background-color".into()),
        Token::String("var(--text-color, red)".into()),
        Token::RParen,
    ];
    assert_eq!(tokens, expected);
}

#[test]
fn lex_selector_hyphenated_property_parentheses_value_continuing_string() {
    let input = "(body background-color var(--text-color, red)def)";
    let tokens = lex(input.into()).unwrap();
    let expected = vec![
        Token::LParen,
        Token::String("body".into()),
        Token::String("background-color".into()),
        Token::String("var(--text-color, red)def".into()),
        Token::RParen,
    ];
    assert_eq!(tokens, expected);
}

#[test]
fn lex_pseudo_selector_property_value() {
    let input = "(a:hover text-decoration underline)";
    let tokens = lex(input.into()).unwrap();
    let expected = vec![
        Token::LParen,
        Token::String("a:hover".into()),
        Token::String("text-decoration".into()),
        Token::String("underline".into()),
        Token::RParen,
    ];
    assert_eq!(tokens, expected);
}

#[test]
fn lex_multiple_selector_property_value() {
    let input = "(body color red)\n(p color blue)";
    let tokens = lex(input.into()).unwrap();
    let expected = vec![
        Token::LParen,
        Token::String("body".into()),
        Token::String("color".into()),
        Token::String("red".into()),
        Token::RParen,
        Token::LParen,
        Token::String("p".into()),
        Token::String("color".into()),
        Token::String("blue".into()),
        Token::RParen,
    ];
    assert_eq!(tokens, expected);
}

#[test]
fn parse_multiple_selector_property_value() {
    let input = "(body color red)\n(p color blue)";
    let tokens = lex(input.into()).unwrap();
    let s_exprs = parse(tokens).unwrap();
    let expected = vec![
        SExpr {
            selector: Selector("body".into()),
            rules: vec![Rule {
                property: "color".into(),
                value: vec!["red".into()],
            }],
            children: vec![],
        },
        SExpr {
            selector: Selector("p".into()),
            rules: vec![Rule {
                property: "color".into(),
                value: vec!["blue".into()],
            }],
            children: vec![],
        },
    ];
    assert_eq!(s_exprs, expected);
}
