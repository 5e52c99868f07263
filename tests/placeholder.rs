use response_body_injection::placeholder::inject;

fn map(pairs: &[(&str, &str)]) -> Vec<(String, String)> {
    pairs.iter().map(|(k, v)| (k.to_string(), v.to_string())).collect()
}

#[test]
fn test_hello_world_injection() {
    let output = inject(
        "<html><head></head><body><!--#echo var=\"hello\" --></body></html>",
        &map(&[("hello", "<h1>hello world</h1>")]),
    );

    assert_eq!(
        output,
        "<html><head></head><body><h1>hello world</h1></body></html>"
    )
}

#[test]
fn test_no_injection() {
    let output = inject(
        "<html><head></head><body><!--#echo var=hello --></body></html>",
        &map(&[("different", "<h1>hello world</h1>")]),
    );

    assert_eq!(output, "<html><head></head><body></body></html>")
}

#[test]
fn test_html_injection() {
    let output = inject(
        "<html><head></head><body><main>Hi there!</main><!--#echo var=\"script\" --></body></html>",
        &map(&[(
            "script",
            "<script async src=\"https://www.google-analytics.com/analytics.js\"></script>",
        )]),
    );

    assert_eq!(output, "<html><head></head><body><main>Hi there!</main><script async src=\"https://www.google-analytics.com/analytics.js\"></script></body></html>");
}

#[test]
fn test_without_quotes_injection() {
    let output = inject(
        "<html><head></head><body><main>Hi there!</main><!--#echo var=script --></body></html>",
        &map(&[(
            "script",
            "<script async src=\"https://www.google-analytics.com/analytics.js\"></script>",
        )]),
    );

    assert_eq!(output, "<html><head></head><body><main>Hi there!</main><script async src=\"https://www.google-analytics.com/analytics.js\"></script></body></html>");
}

#[test]
fn test_head_injection() {
    let output = inject(
        "<html><head><!--#echo var=\"title\" --></head><body></body></html>",
        &map(&[("title", "<title>Test</title>")]),
    );

    assert_eq!(
        output,
        "<html><head><title>Test</title></head><body></body></html>"
    );
}

#[test]
fn test_newline_multi_injection() {
    let output = inject(
        "
                <html>
                    <head><!--#echo var=\"title\" --></head>
                    <body>
                        <section><!--#echo var=\"header\" --></section>
                        <section><!--#echo var=\"header\" --></section>
                    </body>
                </html>
            ",
        &map(&[
            ("title", "<title>Test</title>"),
            ("header", "<h2>Multi header</h2>"),
        ]),
    );

    assert_eq!(
        output,
        "
                <html>
                    <head><title>Test</title></head>
                    <body>
                        <section><h2>Multi header</h2></section>
                        <section><h2>Multi header</h2></section>
                    </body>
                </html>
            "
    );
}

#[test]
fn text_without_directives_is_unchanged() {
    let src = "<html><body><!-- plain comment --><p>a=b</p></body></html>";
    let once = inject(src, &map(&[("a", "x")]));
    assert_eq!(once, src);
    assert_eq!(inject(&once, &map(&[("a", "x")])), src);
}

#[test]
fn empty_source_stays_empty() {
    assert_eq!(inject("", &map(&[("a", "x")])), "");
}

#[test]
fn unterminated_directive_is_kept() {
    let src = "<p><!--#echo var=\"a\" </p>";
    assert_eq!(inject(src, &map(&[("a", "x")])), src);
}

#[test]
fn unterminated_directive_before_a_terminated_one() {
    let src = "<!--#echo var=a <!--#echo var=b -->!";
    assert_eq!(inject(src, &map(&[("a", "A"), ("b", "B")])), "<!--#echo var=a B!");
}

#[test]
fn only_last_equals_segment_is_the_name() {
    let src = "[<!--#echo x=var=\"b\" -->]";
    assert_eq!(inject(src, &map(&[("b", "B"), ("var", "V")])), "[B]");
}

#[test]
fn name_is_trimmed_of_white_space() {
    let src = "<!--#echo \t var=c\n -->|";
    assert_eq!(inject(src, &map(&[("c", "C")])), "C|");
}

#[test]
fn text_after_terminator_is_kept() {
    let src = "a<!--#echo var=\"k\" -->b<!-- note -->c";
    assert_eq!(inject(src, &map(&[("k", "K")])), "aKb<!-- note -->c");
}

#[test]
fn non_ascii_text_and_values() {
    let src = "é<!--#echo var=\"ключ\" -->ü";
    assert_eq!(inject(src, &map(&[("ключ", "значение")])), "éзначениеü");
}

#[test]
fn directive_without_name_and_empty_mapping() {
    assert_eq!(inject("x<!--#echo-->y", &map(&[])), "xy");
    assert_eq!(inject("x<!--#echo-->y", &map(&[("", "E")])), "xEy");
}

#[test]
fn several_directives_with_absent_names_vanish() {
    let src = "a<!--#echo var=x -->b<!--#echo var=\"y\" -->c";
    assert_eq!(inject(src, &map(&[("z", "Z")])), "abc");
    assert_eq!(inject(src, &map(&[("x", "X"), ("y", "Y")])), "aXbYc");
}
