use flav_md::code_block::{is_code_block_start, parse_code_block, CodeBlock};

#[test]
fn test_is_code_block_start() {
    let test_cases = [
        ("should return true when input is ```", "```", true),
        ("should return true when input is ```<langname>", "```html", true),
        ("should return true when input is ``", "``", false),
        ("should return true when input is `", "``", false),
    ];
    for (it, input, expected) in test_cases.iter() {
        let output = is_code_block_start(&input.to_string());
        assert_eq!(output, *expected, "Failed: {}\n", it);
    }
}

#[test]
fn test_parse_code_block() {
    let input = [
        "<script src=\"/a/b.js\">alert('aaa')</script>",
        "'aaa'",
        "\"aaa\"",
    ]
    .iter()
    .map(|&s| s.into())
    .collect();
    let expected: Vec<String> = [
        "&lt;script src=&quot;/a/b.js&quot;&gt;alert(&#39;aaa&#39;)&lt;/script&gt;",
        "&#39;aaa&#39;",
        "&quot;aaa&quot;",
    ]
    .iter()
    .map(|&s| s.into())
    .collect();
    let output = parse_code_block(input);
    assert_eq!(output, expected);
}

#[test]
fn code_block_test_is_code_block_start() {
    let parser = CodeBlock::new();
    let test_cases = [
        ("should return true when input is ```", "```", true),
        ("should return true when input is ```<langname>", "```html", true),
        ("should return true when input is ``", "``", false),
        ("should return true when input is `", "``", false),
    ];
    for (it, input, expected) in test_cases.iter() {
        let output = parser.is_code_block_start(&input.to_string());
        assert_eq!(output, *expected, "Failed: {}\n", it);
    }
}

#[test]
fn code_block_test_parse_code_block() {
    let parser = CodeBlock::new();
    let input = [
        "<script src=\"/a/b.js\">alert('aaa')</script>",
        "'aaa'",
        "\"aaa\"",
    ]
    .iter()
    .map(|&s| s.into())
    .collect();
    let expected: Vec<String> = [
        "&lt;script src=&quot;/a/b.js&quot;&gt;alert(&#39;aaa&#39;)&lt;/script&gt;",
        "&#39;aaa&#39;",
        "&quot;aaa&quot;",
    ]
    .iter()
    .map(|&s| s.into())
    .collect();
    let output = parser.parse_code_block(input);
    assert_eq!(output, expected);
}
