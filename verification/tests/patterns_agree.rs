use markdown_elements::patterns::{
    find_image_markup, find_link_markup, match_code_fence_delimiter, match_heading_marker,
    match_horizontal_rule, match_ordered_list_marker, match_unordered_list_marker, skip_quotes,
};
use regex::Regex;

fn cs(s: &str) -> Vec<char> {
    s.chars().collect()
}

fn corpus() -> Vec<&'static str> {
    vec![
        "",
        " ",
        "# Title",
        "#Title",
        "###### six",
        "####### seven",
        "#\ttab",
        " # indented",
        "#",
        "- a",
        "-a",
        "  * b",
        "\t+ c",
        "+",
        "1. one",
        "  23. x",
        "1.",
        ". x",
        "1 x",
        "a1. x",
        " \t 7.",
        "```",
        "```rust",
        "``",
        " ```",
        "````",
        ">",
        "> q",
        ">> q",
        " > q",
        "---",
        "----",
        "--",
        " --- ",
        "\t---\t",
        "--- x",
        "- - -",
        "-",
        "![a](b)",
        "![a](b) ![c](d)",
        "x ![a]](b)) y",
        "![a](b",
        "![a] (b)",
        "![]()",
        "![",
        "!![a](b)",
        "![a![b](c)",
        "![a](b(c)d)e)",
        "[a](b)",
        "[a][b](c)",
        "[[a](b)",
        "a]( [b](c)",
        "[a]()(b)",
        "[a](b)[c](d)",
        "](a)",
        "[a]",
        "[](",
        "x [a\\](b) y",
        "**bold** text",
        "plain text",
        "---\u{a0}",
        "\u{3000}----\r",
        "---\u{c}",
        "\u{2003}---\u{85}",
        "\u{1680}---\u{205f}\u{202f}",
        "\u{b}---\u{2028}\u{2029}",
        "---\u{200b}",
        "\u{a0}- a",
        "\u{a0}# a",
        "-\u{a0}--",
        "\r",
    ]
}

fn agree(pattern: &str, ours: fn(&[char]) -> bool) {
    let re = Regex::new(pattern).unwrap();
    for line in corpus() {
        assert_eq!(ours(&cs(line)), re.is_match(line), "{pattern} on {line:?}");
    }
}

#[test]
fn code_fence_agrees_with_its_expression() {
    agree(r"\A```", |l| match_code_fence_delimiter(l));
}

#[test]
fn ordered_marker_agrees_with_its_expression() {
    agree(r"\A[ \t]*[0-9]+\.", |l| match_ordered_list_marker(l).is_some());
}

#[test]
fn unordered_marker_agrees_with_its_expression() {
    agree(r"\A[ \t]*[*\-+]", |l| match_unordered_list_marker(l).is_some());
}

#[test]
fn heading_marker_agrees_with_its_expression() {
    agree(r"\A#{1,6}[ \t]", |l| match_heading_marker(l, 0).is_some());
}

#[test]
fn blockquote_marker_agrees_with_its_expression() {
    agree(r"\A>+", |l| skip_quotes(l, 0).1 > 0);
}

#[test]
fn horizontal_rule_agrees_with_its_expression() {
    let re = Regex::new(r"^-{3,}$").unwrap();
    for line in corpus() {
        assert_eq!(match_horizontal_rule(&cs(line)), re.is_match(line.trim()), "{line:?}");
    }
}

fn spans_agree(pattern: &str, ours: fn(&[char]) -> Option<(usize, usize, usize)>, opening: usize) {
    let re = Regex::new(pattern).unwrap();
    for line in corpus() {
        let found = ours(&cs(line));
        match re.captures(line) {
            None => assert_eq!(found, None, "{pattern} on {line:?}"),
            Some(caps) => {
                let whole = caps.get(0).unwrap();
                let (open, mid, close) = found.unwrap();
                assert_eq!((open, close + 1), (whole.start(), whole.end()), "{pattern} on {line:?}");
                assert_eq!(&line[open + opening..mid], caps.get(1).unwrap().as_str());
                assert_eq!(&line[mid + 2..close], caps.get(2).unwrap().as_str());
            }
        }
    }
}

#[test]
fn image_markup_agrees_with_its_expression() {
    spans_agree(r"!\[(.*?)\]\((.*?)\)", |s| find_image_markup(s), 2);
}

#[test]
fn link_markup_agrees_with_its_expression() {
    spans_agree(r"\[(.*?)\]\((.*?)\)", |s| find_link_markup(s), 1);
}
