use flav_md::builder::MdNode;
use flav_md::lexer::Lexer;
use flav_md::node::{Align, Content, ElementNode, Table, TableHead, Token};

fn leaf(tag: Token, text: &str) -> ElementNode {
    ElementNode::new(
        tag,
        Content::PlainText {
            value: text.to_string(),
        },
        Box::new(ElementNode::Nil),
    )
}

fn li_with(text: &str, child: ElementNode) -> ElementNode {
    ElementNode::new(
        Token::Li,
        Content::PlainText {
            value: text.to_string(),
        },
        Box::new(child),
    )
}

fn container(tag: Token, children: Vec<ElementNode>) -> ElementNode {
    ElementNode::new(
        tag,
        Content::ElementNodes { value: children },
        Box::new(ElementNode::Nil),
    )
}

#[test]
fn test_parse() {
    let input: Vec<String> = vec![
        "# hello",
        "## world",
        "* hogehoge",
        "* hogehoge1",
        "  * this is [Google先生](https://example.com)",
        "  * hogehoge3",
        "    * hoge 4",
        "* hogehoge4",
        "1. hoge1",
        "2. hoge2",
        "  1. aaa",
        "  2. ccc",
        "    1. ddd",
        "this is [Google先生](https://example.com)",
        "画像 ![エビフライトライアングル](https://example.com)",
        "> aaa",
        "bbb",
        ">> ccc",
        "ddd",
        "",
        "## world",
        "```html",
        "<script src=\"hoge.js\"></script>",
        "<script src=\"hoge.js\"></script>",
        "```",
        "this is `hoge` and `fuga`",
        "this is *hoge*",
        "this is **hoge**",
        "this is *hoge **fuga***",
        "|  head1  | head2 | head3|",
        "|:----:|-----:|:----- |",
        "|  aaa1  | bbb1 | ccc1|",
        "|  aaa2 | bbb2 | ccc2|",
        "aaa",
    ]
    .iter()
    .map(|s| s.to_string())
    .collect();
    let expected = MdNode::new(vec![
        leaf(Token::H1, "hello"),
        leaf(Token::H2, "world"),
        container(
            Token::Ul,
            vec![
                leaf(Token::Li, "hogehoge"),
                li_with(
                    "hogehoge1",
                    container(
                        Token::Ul,
                        vec![
                            leaf(
                                Token::Li,
                                "this is <a class=\"flav-md-a\" href=\"https://example.com\" alt=\"Google先生\">Google先生</a>",
                            ),
                            li_with(
                                "hogehoge3",
                                container(Token::Ul, vec![leaf(Token::Li, "hoge 4")]),
                            ),
                        ],
                    ),
                ),
                leaf(Token::Li, "hogehoge4"),
            ],
        ),
        container(
            Token::Ol,
            vec![
                leaf(Token::Li, "hoge1"),
                li_with(
                    "hoge2",
                    container(
                        Token::Ol,
                        vec![
                            leaf(Token::Li, "aaa"),
                            li_with("ccc", container(Token::Ol, vec![leaf(Token::Li, "ddd")])),
                        ],
                    ),
                ),
            ],
        ),
        leaf(
            Token::P,
            "this is <a class=\"flav-md-a\" href=\"https://example.com\" alt=\"Google先生\">Google先生</a>",
        ),
        leaf(
            Token::P,
            "画像 <img class=\"flav-md-img\" src=\"https://example.com\" alt=\"エビフライトライアングル\">",
        ),
        container(
            Token::Blockquote,
            vec![
                leaf(Token::P, "aaa"),
                leaf(Token::P, "bbb"),
                container(
                    Token::Blockquote,
                    vec![leaf(Token::P, "ccc"), leaf(Token::P, "ddd")],
                ),
            ],
        ),
        leaf(Token::H2, "world"),
        leaf(
            Token::Code,
            "&lt;script src=&quot;hoge.js&quot;&gt;&lt;/script&gt;<br />&lt;script src=&quot;hoge.js&quot;&gt;&lt;/script&gt;",
        ),
        leaf(
            Token::P,
            "this is <code class=\"flav-md-code-inline\">hoge</code> and <code class=\"flav-md-code-inline\">fuga</code>",
        ),
        leaf(Token::P, "this is <em class=\"flav-md-em\">hoge</em>"),
        leaf(
            Token::P,
            "this is <strong class=\"flav-md-strong\">hoge</strong>",
        ),
        leaf(
            Token::P,
            "this is <em class=\"flav-md-em\">hoge <strong class=\"flav-md-strong\">fuga</strong></em>",
        ),
        ElementNode::new(
            Token::Table,
            Content::Table {
                value: Table {
                    head: vec![
                        TableHead::new("head1".to_string(), Align::Center),
                        TableHead::new("head2".to_string(), Align::Right),
                        TableHead::new("head3".to_string(), Align::Left),
                    ],
                    body: vec![
                        vec!["aaa1".to_string(), "bbb1".to_string(), "ccc1".to_string()],
                        vec!["aaa2".to_string(), "bbb2".to_string(), "ccc2".to_string()],
                    ],
                },
            },
            Box::new(ElementNode::Nil),
        ),
        leaf(Token::P, "aaa"),
    ]);
    let lex = Lexer::new(input);
    assert_eq!(lex.parse(), expected);
}
