use ocid_core::json::push_json_string;

fn written(s: &str) -> String {
    let mut out: Vec<char> = Vec::new();
    push_json_string(&mut out, s);
    out.into_iter().collect()
}

#[test]
fn strings_are_escaped_as_serde_json_writes_them() {
    let samples = [
        "",
        "plain",
        "quote \" and backslash \\",
        "tab\tnewline\ncr\rbackspace\u{8}formfeed\u{c}",
        "nul\u{0} unit\u{1f} del\u{7f}",
        "slash / stays",
        "non-ascii é ✓ 🐳",
    ];
    for s in samples {
        assert_eq!(written(s), serde_json::to_string(s).unwrap(), "{s:?}");
    }
}

#[test]
fn control_characters_use_lowercase_hex() {
    assert_eq!(written("\u{1b}"), "\"\\u001b\"");
}
