use akt_browser::css::{
    css_value, declaration, declarations, parse, rule, selectors, whitespaces, AttributeSelectorOp,
    CSSParseError, CSSValue, Declaration, Rule, SimpleSelector, Stylesheet, Unit,
};

fn chars(s: &str) -> Vec<char> {
    s.chars().collect()
}

#[test]
fn test_stylesheet() {
    assert_eq!(
        parse("div[display=flex] { background: red; width: 1em } .rule { backgound: none;  }".to_string()),
        Ok(Stylesheet::new(vec![
            Rule {
                selectors: vec![SimpleSelector::AttributeSelector {
                    tag_name: "div".to_string(),
                    attribute: "display".to_string(),
                    op: AttributeSelectorOp::Eq,
                    value: "flex".to_string()
                }],
                declarations: vec![
                    Declaration {
                        name: "background".to_string(),
                        value: CSSValue::Keyword("red".to_string())
                    },
                    Declaration {
                        name: "width".to_string(),
                        value: CSSValue::Length((1, Unit::Em)),
                    }
                ]
            },
            Rule {
                selectors: vec![SimpleSelector::ClassSelector {
                    class_name: "rule".to_string(),
                }],
                declarations: vec![Declaration {
                    name: "backgound".to_string(),
                    value: CSSValue::Keyword("none".to_string())
                }]
            },
        ]))
    );
}

#[test]
fn test_whitespaces() {
    let input_1 = chars("  \t\n  \r\n ");
    let input_2 = chars("  \t\n 444 \r\n ");

    assert_eq!(whitespaces(&input_1, 0), input_1.len());
    let e = whitespaces(&input_2, 0);
    assert_eq!(input_2[..e].iter().collect::<String>(), String::from("  \t\n "));
    assert_eq!(input_2[e..].iter().collect::<String>(), String::from("444 \r\n "));
}

#[test]
fn test_rule() {
    let input_1 = chars(".test { display: flex; width: 1em }");
    assert_eq!(
        rule(&input_1, 0),
        Ok((
            Rule {
                selectors: vec![SimpleSelector::ClassSelector {
                    class_name: "test".to_string(),
                }],
                declarations: vec![
                    Declaration {
                        name: "display".to_string(),
                        value: CSSValue::Keyword("flex".to_string())
                    },
                    Declaration {
                        name: "width".to_string(),
                        value: CSSValue::Length((1, Unit::Em)),
                    }
                ]
            },
            input_1.len()
        ))
    );
}

#[test]
fn test_selectors() {
    let input = chars("a[display=flex], div[background~=g] {");
    assert_eq!(
        selectors(&input, 0),
        Ok((
            vec![
                SimpleSelector::AttributeSelector {
                    tag_name: "a".to_string(),
                    attribute: "display".to_string(),
                    op: AttributeSelectorOp::Eq,
                    value: "flex".to_string()
                },
                SimpleSelector::AttributeSelector {
                    tag_name: "div".to_string(),
                    attribute: "background".to_string(),
                    op: AttributeSelectorOp::Contain,
                    value: "g".to_string()
                }
            ],
            input.len() - 1
        ))
    );
    assert_eq!(input[input.len() - 1], '{');
}

#[test]
fn test_declarations() {
    let input = chars("display: flex; width: 16em; }");
    assert_eq!(
        declarations(&input, 0),
        Ok((
            vec![
                Declaration {
                    name: "display".to_string(),
                    value: CSSValue::Keyword("flex".to_string())
                },
                Declaration {
                    name: "width".to_string(),
                    value: CSSValue::Length((16, Unit::Em))
                }
            ],
            input.len() - 1
        ))
    );
    assert_eq!(input[input.len() - 1], '}');
}

#[test]
fn test_declaratione() {
    let input_1 = chars("display: flex");

    assert_eq!(
        declaration(&input_1, 0),
        Ok((
            Declaration {
                name: "display".to_string(),
                value: CSSValue::Keyword("flex".to_string()),
            },
            input_1.len()
        ))
    );
}

#[test]
fn test_css_value() {
    let input = chars("1em");
    let expected = css_value(&input, 0);
    assert_eq!(expected, Ok((CSSValue::Length((1, Unit::Em)), 3)))
}

#[test]
fn attribute_selector_example_has_one_rule() {
    assert_eq!(
        parse("div[display=flex] { width: 1em }".to_string()),
        Ok(Stylesheet::new(vec![Rule {
            selectors: vec![SimpleSelector::AttributeSelector {
                tag_name: "div".to_string(),
                op: AttributeSelectorOp::Eq,
                attribute: "display".to_string(),
                value: "flex".to_string(),
            }],
            declarations: vec![Declaration {
                name: "width".to_string(),
                value: CSSValue::Length((1, Unit::Em)),
            }],
        }]))
    );
}

#[test]
fn universal_and_type_selectors_and_optional_semicolons() {
    assert_eq!(
        parse("* { color: red; } p,div{margin:2em;;}".to_string()),
        Err(CSSParseError::InvalidResourceError(18))
    );
    let sheet = parse("* { color: red; }\n p , div { margin : 2em }".to_string()).unwrap();
    assert_eq!(sheet.rules.len(), 2);
    assert_eq!(sheet.rules[0].selectors, vec![SimpleSelector::UniversalSelector]);
    assert_eq!(
        sheet.rules[1].selectors,
        vec![
            SimpleSelector::TypeSelector { tag_name: "p".to_string() },
            SimpleSelector::TypeSelector { tag_name: "div".to_string() },
        ]
    );
    assert_eq!(
        sheet.rules[1].declarations,
        vec![Declaration { name: "margin".to_string(), value: CSSValue::Length((2, Unit::Em)) }]
    );
}

#[test]
fn empty_stylesheet_has_no_rules() {
    assert_eq!(parse("".to_string()), Ok(Stylesheet::new(vec![])));
    assert_eq!(parse(" \n\t ".to_string()), Ok(Stylesheet::new(vec![])));
}

#[test]
fn unknown_attribute_operator_is_an_error() {
    assert_eq!(
        parse("div[display|=flex] { width: 1em }".to_string()),
        Err(CSSParseError::InvalidResourceError(0))
    );
}

#[test]
fn text_where_no_rule_starts_ends_the_rule_list() {
    let sheet = parse("p { width: 1em } ?? q { }".to_string()).unwrap();
    assert_eq!(sheet.rules.len(), 1);
}

#[test]
fn other_units_are_refused() {
    assert!(parse("p { width: 10px }".to_string()).is_err());
    assert!(parse("p { width: 1.5em }".to_string()).is_err());
}

#[test]
fn length_beyond_the_integer_range_is_refused() {
    let big = format!("p {{ width: {}0em }}", usize::MAX);
    assert!(parse(big).is_err());
    let max = format!("p {{ width: {}em }}", usize::MAX);
    let sheet = parse(max).unwrap();
    assert_eq!(sheet.rules[0].declarations[0].value, CSSValue::Length((usize::MAX, Unit::Em)));
}

#[test]
fn length_reads_every_digit() {
    let input = chars("1234em");
    assert_eq!(css_value(&input, 0), Ok((CSSValue::Length((1234, Unit::Em)), 6)));
}
