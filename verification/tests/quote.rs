use flav_md::quote::{enclose_quote, is_quote_block};

#[test]
fn test_is_quote_block() {
    let test_cases = [
        ("should return true when input is block", "> hogehoge", true),
        ("should return false when input is not block", "hogehoge", false),
    ];
    for (it, input, expected) in test_cases.iter() {
        let output = is_quote_block(&input.to_string());
        assert_eq!(output, *expected, "Failed: {}\n", it);
    }
}

#[test]
fn test_enclose_quote() {
    let input = vec!["> hogehoge", "> this is test", "aaa"]
        .iter()
        .map(|s| s.to_string())
        .collect();
    let expected: Vec<String> = vec!["hogehoge", "this is test", "aaa"]
        .iter()
        .map(|s| s.to_string())
        .collect();
    let output = enclose_quote(input);
    assert_eq!(output, expected);
}
