use flav_md::node::{Align, Table, TableHead};
use flav_md::table::{is_table_block_start, parse_table};

#[test]
fn test_is_table_block_start() {
    let test_cases = [
        (
            "should return true when input is table start",
            "|  head1  | head2 | head3|",
            true,
        ),
        (
            "should return false when input is not table start1",
            "  head1  | head2 | head3|",
            false,
        ),
        (
            "should return false when input is not table start2",
            "|  head1  | head2 | head3",
            false,
        ),
    ];
    for (it, input, expected) in test_cases.iter() {
        let output = is_table_block_start(&input.to_string());
        assert_eq!(output, *expected, "Failed: {}\n", it);
    }
}

#[test]
fn test_parse_table() {
    let input: Vec<String> = [
        "|  head1  | head2 | head3|",
        "|:----:|-----:|:-----|",
        "|  aaa1  | bbb1 | ccc1|",
        "|  aaa2 | bbb2 | ccc2|",
    ]
    .iter()
    .map(|s| s.to_string())
    .collect();

    let expected = Table {
        head: vec![
            TableHead::new("head1".to_string(), Align::Center),
            TableHead::new("head2".to_string(), Align::Right),
            TableHead::new("head3".to_string(), Align::Left),
        ],
        body: vec![
            vec!["aaa1".to_string(), "bbb1".to_string(), "ccc1".to_string()],
            vec!["aaa2".to_string(), "bbb2".to_string(), "ccc2".to_string()],
        ],
    };

    let output = parse_table(input);
    assert_eq!(output.0, expected);
}
