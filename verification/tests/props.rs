use flav_md::builder::MdNode;
use flav_md::code_block::is_code_block_start;
use flav_md::list::{is_number_list, is_simple_list};
use flav_md::create_flav_md;
use flav_md::inline::inline_parse;
use flav_md::lexer::Lexer;
use flav_md::node::{Content, ElementNode, Token};
use flav_md::table::parse_table;
use flav_md::util::escape_code_string;

fn lines(doc: &str) -> Vec<String> {
    doc.split('\n').map(|s| s.to_string()).collect()
}

fn render(doc: &str) -> String {
    Lexer::new(lines(doc)).parse().to_html_string()
}

#[test]
fn plain_text_renders_unchanged() {
    let output = inline_parse(&String::from("just ordinary words, 123."));
    assert_eq!(output, String::from("just ordinary words, 123."));
    assert_eq!(
        render("just ordinary words, 123."),
        "<p class=\"flav-md-text flav-md-p\">just ordinary words, 123.</p>"
    );
}

#[test]
fn heading_example() {
    assert_eq!(
        render("# hello"),
        "<h1 class=\"flav-md-text flav-md-h1 flav-md-h\">hello</h1>"
    );
}

#[test]
fn list_example() {
    assert_eq!(
        render("* a\n* b"),
        "<ul class=\"flav-md-ul\">\n  <li class=\"flav-md-text flav-md-li\">a</li>\n  <li class=\"flav-md-text flav-md-li\">b</li>\n</ul>"
    );
}

#[test]
fn strong_paragraph_example() {
    assert_eq!(
        render("**x**"),
        "<p class=\"flav-md-text flav-md-p\"><strong class=\"flav-md-strong\">x</strong></p>"
    );
}

#[test]
fn table_node_example() {
    let input = lines("|h1|h2|\n|:--:|--:|\n|a|b|");
    let (table, consumed) = parse_table(input);
    assert_eq!(consumed, 3);
    assert_eq!(table.head.len(), 2);
    assert_eq!(
        table.head[0],
        flav_md::node::TableHead::new("h1".to_string(), flav_md::node::Align::Center)
    );
    assert_eq!(
        table.head[1],
        flav_md::node::TableHead::new("h2".to_string(), flav_md::node::Align::Right)
    );
    assert_eq!(table.body, vec![vec!["a".to_string(), "b".to_string()]]);
}

#[test]
fn quote_recursion_nests_blockquotes() {
    let parsed = Lexer::new(lines("> a\n>> b")).parse();
    let expected = MdNode::new(vec![ElementNode::new(
        Token::Blockquote,
        Content::ElementNodes {
            value: vec![
                ElementNode::new(
                    Token::P,
                    Content::PlainText {
                        value: "a".to_string(),
                    },
                    Box::new(ElementNode::Nil),
                ),
                ElementNode::new(
                    Token::Blockquote,
                    Content::ElementNodes {
                        value: vec![ElementNode::new(
                            Token::P,
                            Content::PlainText {
                                value: "b".to_string(),
                            },
                            Box::new(ElementNode::Nil),
                        )],
                    },
                    Box::new(ElementNode::Nil),
                ),
            ],
        },
        Box::new(ElementNode::Nil),
    )]);
    assert_eq!(parsed, expected);
}

#[test]
fn table_rows_carry_column_alignment() {
    let html = render("|h1|h2|\n|:--:|--:|\n|a|b|");
    assert_eq!(html.matches("<td ").count(), 2);
    assert!(html.contains("<td style=\"text-align: center\">a</td>"));
    assert!(html.contains("<td style=\"text-align: right\">b</td>"));
}

#[test]
fn empty_document_renders_empty() {
    assert_eq!(Lexer::new(Vec::new()).parse().to_html_string(), "");
}

#[test]
fn blank_line_is_an_empty_paragraph() {
    assert_eq!(render(""), "<p class=\"flav-md-text flav-md-p\"></p>");
}

#[test]
fn unterminated_fence_takes_rest_as_code() {
    assert_eq!(
        render("```\na < b"),
        "<code class=\"flav-md-code\">\n  a &lt; b\n</code>"
    );
}

#[test]
fn malformed_table_is_rejected() {
    // The alignment row yields one alignment for two header cells, so
    // the block is not a table; every line falls back to a paragraph.
    let html = render("|h1|h2|\n|:--|\n|a|b|");
    assert!(!html.contains("<table>"));
    // A body row wider than the header also rejects the block.
    let html = render("|h|\n|:--|\n|a|b|");
    assert!(!html.contains("<table>"));
}

#[test]
fn escape_handles_every_entity() {
    assert_eq!(
        escape_code_string(&"&<>\"'".to_string()),
        "&amp;&lt;&gt;&quot;&#39;"
    );
}

#[test]
fn fence_rejects_dot_and_backtick_tags() {
    assert!(is_code_block_start(&"```rust".to_string()));
    assert!(is_code_block_start(&"```a|b".to_string()));
    assert!(!is_code_block_start(&"```a.b".to_string()));
    assert!(!is_code_block_start(&"````".to_string()));
}

#[test]
fn nesting_depth_follows_indent_levels() {
    // Three strictly increasing indent levels give three nested lists.
    let html = render("* a\n  * b\n    * c");
    assert_eq!(html.matches("<ul ").count(), 3);
    // A single level gives a single list.
    let html = render("* a\n* b\n* c");
    assert_eq!(html.matches("<ul ").count(), 1);
}

#[test]
fn line_after_table_is_classified_again() {
    let html = render("|h|\n|:--|\n|a|\n* x");
    assert!(html.contains("<table>"));
    assert!(html.contains("<ul class=\"flav-md-ul\">"));
}

#[test]
fn bare_hash_is_an_empty_heading() {
    assert_eq!(
        render("#"),
        "<h1 class=\"flav-md-text flav-md-h1 flav-md-h\"></h1>"
    );
}

#[test]
fn bare_quote_marker_unwraps_to_an_empty_line() {
    assert_eq!(
        render(">"),
        "<blockquote class=\"flav-md-text flav-md-blockquote\">\n  <p class=\"flav-md-text flav-md-p\"></p>\n</blockquote>"
    );
}

#[test]
fn token_values_are_element_names() {
    assert_eq!(Token::Blockquote.value(), "blockquote");
    assert_eq!(Token::H3.value(), "h3");
    assert_eq!(Token::Ul.value(), "ul");
}

#[test]
fn unicode_whitespace_pads_list_markers() {
    assert!(is_simple_list(&"\u{a0}* a".to_string()));
    assert!(is_number_list(&"\u{a0}1. a".to_string()));
    assert!(is_simple_list(&"*\u{3000}a".to_string()));
}

#[test]
fn stylesheet_is_embedded_verbatim() {
    let out = create_flav_md().build("# t".to_string(), "p { & }".to_string());
    assert!(out.starts_with("<style>p { & }</style>\n"));
}

#[test]
fn ordered_list_numbers_are_not_kept() {
    let html = render("7. a\n9. b");
    assert_eq!(
        html,
        "<ol class=\"flav-md-ol\">\n  <li class=\"flav-md-text flav-md-li\">a</li>\n  <li class=\"flav-md-text flav-md-li\">b</li>\n</ol>"
    );
}

#[test]
fn image_wins_over_link() {
    assert_eq!(
        inline_parse(&"![a](u)".to_string()),
        "<img class=\"flav-md-img\" src=\"u\" alt=\"a\">"
    );
}

#[test]
fn strong_wins_over_emphasis() {
    assert_eq!(
        inline_parse(&"**a**".to_string()),
        "<strong class=\"flav-md-strong\">a</strong>"
    );
}
