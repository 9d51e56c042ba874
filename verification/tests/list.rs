use flav_md::list::{is_number_list, is_simple_list, parse_list, ListPattern};
use flav_md::node::{Content, ElementNode, Token};

fn leaf_li(text: &str) -> ElementNode {
    ElementNode::new(
        Token::Li,
        Content::PlainText {
            value: text.to_string(),
        },
        Box::new(ElementNode::Nil),
    )
}

fn li_with(text: &str, child: ElementNode) -> ElementNode {
    ElementNode::new(
        Token::Li,
        Content::PlainText {
            value: text.to_string(),
        },
        Box::new(child),
    )
}

fn container(tag: Token, children: Vec<ElementNode>) -> ElementNode {
    ElementNode::new(
        tag,
        Content::ElementNodes { value: children },
        Box::new(ElementNode::Nil),
    )
}

#[test]
fn test_is_number_list() {
    let test_cases = [
        (
            "should return true when format is list `1.` (nest 0)",
            "1. aaa",
            true,
        ),
        (
            "should return true when format is list `  2.` (nest 1)",
            "  2. aaa",
            true,
        ),
        (
            "should return true when format is list `10.` (nest 0)",
            "10. aaa",
            true,
        ),
        ("should return false when format is not list", "aaa", false),
    ];
    for (it, input, expected) in test_cases.iter() {
        let output = is_number_list(&input.to_string());
        assert_eq!(output, *expected, "Failed: {}\n", it);
    }
}

#[test]
fn test_is_simple_list() {
    let test_cases = [
        (
            "should return true when format is list `*` (nest 0)",
            "* aaa",
            true,
        ),
        (
            "should return true when format is list `*` (nest 1)",
            "  * aaa",
            true,
        ),
        (
            "should return true when format is list `-` (nest 1)",
            "  - aaa",
            true,
        ),
        ("should return true when format is not list", "aaa", false),
    ];
    for (it, input, expected) in test_cases.iter() {
        let output = is_simple_list(&input.to_string());
        assert_eq!(output, *expected, "Failed: {}\n", it);
    }
}

#[test]
fn test_parse_list() {
    let simple_input: Vec<String> = [
        "* hogehoge",
        "* hogehoge1",
        "  * this is test",
        "  * hogehoge3",
        "    * hoge 4",
        "* hogehoge4",
    ]
    .iter()
    .map(|s| s.to_string())
    .collect();
    let simple_expected = container(
        Token::Ul,
        vec![
            leaf_li("hogehoge"),
            li_with(
                "hogehoge1",
                container(
                    Token::Ul,
                    vec![
                        leaf_li("this is test"),
                        li_with(
                            "hogehoge3",
                            container(Token::Ul, vec![leaf_li("hoge 4")]),
                        ),
                    ],
                ),
            ),
            leaf_li("hogehoge4"),
        ],
    );
    let output = parse_list(simple_input, ListPattern::SimpleList, 0);
    assert_eq!(
        output, simple_expected,
        "Failed: {}\n",
        "should correctly parse simple list"
    );

    let number_input: Vec<String> = ["1. hoge1", "2. hoge2", "  1. aaa", "  2. ccc", "    1. ddd"]
        .iter()
        .map(|s| s.to_string())
        .collect();
    let number_expected = container(
        Token::Ol,
        vec![
            leaf_li("hoge1"),
            li_with(
                "hoge2",
                container(
                    Token::Ol,
                    vec![
                        leaf_li("aaa"),
                        li_with("ccc", container(Token::Ol, vec![leaf_li("ddd")])),
                    ],
                ),
            ),
        ],
    );
    let output = parse_list(number_input, ListPattern::NumberList, 0);
    assert_eq!(
        output, number_expected,
        "Failed: {}\n",
        "should correctly parse number list"
    );
}
