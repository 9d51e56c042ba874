use flav_md::util::{escape_code_string, split_string};

#[test]
fn should_return_true_when_code_block_starts_with_lang_name() {
    let input = "this\nis\na";
    let result = split_string(input.to_string());
    let expected: Vec<String> = ["this", "is", "a"].iter().map(|&s| s.into()).collect();
    assert_eq!(result, expected);
}

#[test]
fn test() {
    let test_cases = [
        (
            "should correctly escape &",
            "true && false",
            "true &amp;&amp; false",
        ),
        ("should correctly escape <", "<script", "&lt;script"),
        ("should correctly escape >", "script>", "script&gt;"),
        ("should correctly escape '", "'aaa'", "&#39;aaa&#39;"),
        (
            "should correctly escape whole script tag",
            "<script src=\"/a/b.js\">alert('aaa')</script>",
            "&lt;script src=&quot;/a/b.js&quot;&gt;alert(&#39;aaa&#39;)&lt;/script&gt;",
        ),
    ];
    for (it, input, expected) in test_cases.iter() {
        let output = escape_code_string(&input.to_string());
        assert_eq!(&output, expected, "Failed: {}\n", it);
    }
}
