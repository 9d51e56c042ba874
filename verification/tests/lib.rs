use flav_md::create_flav_md;

#[test]
fn correctly_build_file() {
    let html_text = "<h1 class=\"flav-md-text flav-md-h1 flav-md-h\">sample</h1>".to_string();
    let css_text = ".flav-md-h1 {\n  color: red;\n}".to_string();
    let expected = format!("<style>{}</style>\n{}", css_text, html_text);
    let actual = create_flav_md().build("# sample".to_string(), css_text);
    assert_eq!(actual, expected);
}
