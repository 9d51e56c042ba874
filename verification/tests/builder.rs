use flav_md::builder::MdNode;
use flav_md::node::{Align, Content, ElementNode, Table, TableHead, Token};

fn leaf(tag: Token, text: &str) -> ElementNode {
    ElementNode::new(
        tag,
        Content::PlainText {
            value: text.to_string(),
        },
        Box::new(ElementNode::Nil),
    )
}

fn li_with(text: &str, child: ElementNode) -> ElementNode {
    ElementNode::new(
        Token::Li,
        Content::PlainText {
            value: text.to_string(),
        },
        Box::new(child),
    )
}

fn container(tag: Token, children: Vec<ElementNode>) -> ElementNode {
    ElementNode::new(
        tag,
        Content::ElementNodes { value: children },
        Box::new(ElementNode::Nil),
    )
}

#[test]
fn builder_test_is_code_block_start() {
    let expected = r#"<h1 class="flav-md-text flav-md-h1 flav-md-h">hello</h1>
<h2 class="flav-md-text flav-md-h2 flav-md-h">world</h2>
<ul class="flav-md-ul">
  <li class="flav-md-text flav-md-li">hogehoge</li>
  <li class="flav-md-text flav-md-li">hogehoge1
    <ul class="flav-md-ul">
      <li class="flav-md-text flav-md-li">this is <a class="flav-md-a" href="https://example.com" alt="Google先生">Google先生</a></li>
      <li class="flav-md-text flav-md-li">hogehoge3
        <ul class="flav-md-ul">
          <li class="flav-md-text flav-md-li">hoge 4</li>
        </ul>
      </li>
    </ul>
  </li>
  <li class="flav-md-text flav-md-li">hogehoge4</li>
</ul>
<ol class="flav-md-ol">
  <li class="flav-md-text flav-md-li">hoge1</li>
  <li class="flav-md-text flav-md-li">hoge2
    <ol class="flav-md-ol">
      <li class="flav-md-text flav-md-li">aaa</li>
      <li class="flav-md-text flav-md-li">ccc
        <ol class="flav-md-ol">
          <li class="flav-md-text flav-md-li">ddd</li>
        </ol>
      </li>
    </ol>
  </li>
</ol>
<p class="flav-md-text flav-md-p">this is <a class="flav-md-a" href="https://example.com" alt="Google先生">Google先生</a></p>
<p class="flav-md-text flav-md-p">画像 <img class="flav-md-img" src="https://example.com" alt="エビフライトライアングル"></p>
<blockquote class="flav-md-text flav-md-blockquote">
  <p class="flav-md-text flav-md-p">aaa</p>
  <p class="flav-md-text flav-md-p">bbb</p>
  <blockquote class="flav-md-text flav-md-blockquote">
    <p class="flav-md-text flav-md-p">ccc</p>
    <p class="flav-md-text flav-md-p">ddd</p>
  </blockquote>
</blockquote>
<h2 class="flav-md-text flav-md-h2 flav-md-h">world</h2>
<code class="flav-md-code">
  &lt;script src=&quot;hoge.js&quot;&gt;&lt;/script&gt;<br />&lt;script src=&quot;hoge.js&quot;&gt;&lt;/script&gt;
</code>
<p class="flav-md-text flav-md-p">this is <code class="flav-md-code-inline">hoge</code> and <code class="flav-md-code-inline">fuga</code></p>
<p class="flav-md-text flav-md-p">this is <em class="flav-md-em">hoge</em></p>
<p class="flav-md-text flav-md-p">this is <strong class="flav-md-strong">hoge</strong></p>
<p class="flav-md-text flav-md-p">this is <em class="flav-md-em">hoge <strong class="flav-md-strong">fuga</strong></em></p>
<table>
  <thead>
    <tr>
      <th style="text-align: center">head1</th>
      <th style="text-align: right">head2</th>
      <th style="text-align: left">head3</th>
    </tr>
  </thead>
  <tbody>
    <tr>
      <td style="text-align: center">aaa1</td>
      <td style="text-align: right">bbb1</td>
      <td style="text-align: left">ccc1</td>
    </tr>
    <tr>
      <td style="text-align: center">aaa2</td>
      <td style="text-align: right">bbb2</td>
      <td style="text-align: left">ccc2</td>
    </tr>
  </tbody>
</table>
<p class="flav-md-text flav-md-p">aaa</p>"#;
    let md_node = MdNode::new(vec![
        leaf(Token::H1, "hello"),
        leaf(Token::H2, "world"),
        container(
            Token::Ul,
            vec![
                leaf(Token::Li, "hogehoge"),
                li_with(
                    "hogehoge1",
                    container(
                        Token::Ul,
                        vec![
                            leaf(
                                Token::Li,
                                "this is <a class=\"flav-md-a\" href=\"https://example.com\" alt=\"Google先生\">Google先生</a>",
                            ),
                            li_with(
                                "hogehoge3",
                                container(Token::Ul, vec![leaf(Token::Li, "hoge 4")]),
                            ),
                        ],
                    ),
                ),
                leaf(Token::Li, "hogehoge4"),
            ],
        ),
        container(
            Token::Ol,
            vec![
                leaf(Token::Li, "hoge1"),
                li_with(
                    "hoge2",
                    container(
                        Token::Ol,
                        vec![
                            leaf(Token::Li, "aaa"),
                            li_with("ccc", container(Token::Ol, vec![leaf(Token::Li, "ddd")])),
                        ],
                    ),
                ),
            ],
        ),
        leaf(
            Token::P,
            "this is <a class=\"flav-md-a\" href=\"https://example.com\" alt=\"Google先生\">Google先生</a>",
        ),
        leaf(
            Token::P,
            "画像 <img class=\"flav-md-img\" src=\"https://example.com\" alt=\"エビフライトライアングル\">",
        ),
        container(
            Token::Blockquote,
            vec![
                leaf(Token::P, "aaa"),
                leaf(Token::P, "bbb"),
                container(
                    Token::Blockquote,
                    vec![leaf(Token::P, "ccc"), leaf(Token::P, "ddd")],
                ),
            ],
        ),
        leaf(Token::H2, "world"),
        leaf(
            Token::Code,
            "&lt;script src=&quot;hoge.js&quot;&gt;&lt;/script&gt;<br />&lt;script src=&quot;hoge.js&quot;&gt;&lt;/script&gt;",
        ),
        leaf(
            Token::P,
            "this is <code class=\"flav-md-code-inline\">hoge</code> and <code class=\"flav-md-code-inline\">fuga</code>",
        ),
        leaf(Token::P, "this is <em class=\"flav-md-em\">hoge</em>"),
        leaf(
            Token::P,
            "this is <strong class=\"flav-md-strong\">hoge</strong>",
        ),
        leaf(
            Token::P,
            "this is <em class=\"flav-md-em\">hoge <strong class=\"flav-md-strong\">fuga</strong></em>",
        ),
        ElementNode::new(
            Token::Table,
            Content::Table {
                value: Table {
                    head: vec![
                        TableHead::new("head1".to_string(), Align::Center),
                        TableHead::new("head2".to_string(), Align::Right),
                        TableHead::new("head3".to_string(), Align::Left),
                    ],
                    body: vec![
                        vec!["aaa1".to_string(), "bbb1".to_string(), "ccc1".to_string()],
                        vec!["aaa2".to_string(), "bbb2".to_string(), "ccc2".to_string()],
                    ],
                },
            },
            Box::new(ElementNode::Nil),
        ),
        leaf(Token::P, "aaa"),
    ]);
    let actual = md_node.to_html_string();
    assert_eq!(actual, expected);
}
