use flav_md::inline::inline_parse;

#[test]
fn test_image_pattern() {
    let output = inline_parse(&String::from("![hoge1](hoge2)"));
    assert_eq!(
        output,
        String::from("<img class=\"flav-md-img\" src=\"hoge2\" alt=\"hoge1\">")
    );
}

#[test]
fn test_link_pattern() {
    let output = inline_parse(&String::from("[hoge1](hoge2)"));
    assert_eq!(
        output,
        String::from("<a class=\"flav-md-a\" href=\"hoge2\" alt=\"hoge1\">hoge1</a>")
    );
}

#[test]
fn test_code_pattern() {
    let output = inline_parse(&String::from("`hoge`"));
    assert_eq!(
        output,
        String::from("<code class=\"flav-md-code-inline\">hoge</code>")
    );
}

#[test]
fn test_strong_pattern() {
    let output = inline_parse(&String::from("**hoge**"));
    assert_eq!(
        output,
        String::from("<strong class=\"flav-md-strong\">hoge</strong>")
    );
}

#[test]
fn test_emphasis_pattern() {
    let output = inline_parse(&String::from("*hoge*"));
    assert_eq!(output, String::from("<em class=\"flav-md-em\">hoge</em>"));
}

#[test]
fn test_inline_parse() {
    let output = inline_parse(&String::from("*hoge*"));
    assert_eq!(output, String::from("<em class=\"flav-md-em\">hoge</em>"));
}
