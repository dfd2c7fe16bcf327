use markdown_elements::text::{chars_of, split_lines};
use markdown_elements::{
    split_markdown_into_blocks, split_text_into_blocks, UnformattedMarkdownBlock,
};

fn strings(lines: &[&str]) -> Vec<String> {
    lines.iter().map(|l| l.to_string()).collect()
}

fn lines_of_block(block: &UnformattedMarkdownBlock) -> Vec<String> {
    match block {
        UnformattedMarkdownBlock::OrderedList(l)
        | UnformattedMarkdownBlock::UnorderedList(l)
        | UnformattedMarkdownBlock::Code(l)
        | UnformattedMarkdownBlock::Regular(l) => l.clone(),
    }
}

fn document_lines(text: &str) -> Vec<String> {
    split_lines(&chars_of(text)).into_iter().map(|l| l.into_iter().collect()).collect()
}

#[test]
fn empty_document_has_no_blocks() {
    assert_eq!(split_markdown_into_blocks("".to_string()), vec![]);
}

#[test]
fn lines_end_at_line_feeds() {
    assert_eq!(document_lines("a\nb"), strings(&["a", "b"]));
    assert_eq!(document_lines("a\nb\n"), strings(&["a", "b"]));
    assert_eq!(document_lines("a\n\nb"), strings(&["a", "", "b"]));
    assert_eq!(document_lines("\n"), strings(&[""]));
    assert_eq!(document_lines(""), strings(&[]));
}

#[test]
fn heading_line_is_one_regular_block() {
    assert_eq!(
        split_markdown_into_blocks("# Title\n".to_string()),
        vec![UnformattedMarkdownBlock::Regular(strings(&["# Title"]))]
    );
}

#[test]
fn two_items_are_one_unordered_list() {
    assert_eq!(
        split_markdown_into_blocks("- a\n- b\n".to_string()),
        vec![UnformattedMarkdownBlock::UnorderedList(strings(&["- a", "- b"]))]
    );
}

#[test]
fn fenced_code_is_one_code_block_without_fences() {
    assert_eq!(
        split_markdown_into_blocks("```\ncode\n```\n".to_string()),
        vec![UnformattedMarkdownBlock::Code(strings(&["code"]))]
    );
}

#[test]
fn fence_with_language_opens_code() {
    assert_eq!(
        split_markdown_into_blocks("```rust\nlet x = 1;\n- not a list\n```\nafter".to_string()),
        vec![
            UnformattedMarkdownBlock::Code(strings(&["let x = 1;", "- not a list"])),
            UnformattedMarkdownBlock::Regular(strings(&["after"])),
        ]
    );
}

#[test]
fn unterminated_fence_runs_to_the_end() {
    assert_eq!(
        split_markdown_into_blocks("intro\n```\ncode\nmore".to_string()),
        vec![
            UnformattedMarkdownBlock::Regular(strings(&["intro"])),
            UnformattedMarkdownBlock::Code(strings(&["code", "more"])),
        ]
    );
}

#[test]
fn lone_fence_is_an_empty_code_block() {
    assert_eq!(
        split_markdown_into_blocks("```".to_string()),
        vec![UnformattedMarkdownBlock::Code(strings(&[]))]
    );
    assert_eq!(
        split_markdown_into_blocks("```\n```\n".to_string()),
        vec![UnformattedMarkdownBlock::Code(strings(&[]))]
    );
}

#[test]
fn line_that_ends_a_list_starts_the_next_block() {
    assert_eq!(
        split_markdown_into_blocks("1. one\n2. two\nplain\nmore\n- a\n+ b\n* c\n3. three".to_string()),
        vec![
            UnformattedMarkdownBlock::OrderedList(strings(&["1. one", "2. two"])),
            UnformattedMarkdownBlock::Regular(strings(&["plain", "more"])),
            UnformattedMarkdownBlock::UnorderedList(strings(&["- a", "+ b", "* c"])),
            UnformattedMarkdownBlock::OrderedList(strings(&["3. three"])),
        ]
    );
}

#[test]
fn fence_after_a_list_opens_code() {
    assert_eq!(
        split_markdown_into_blocks("- a\n```\nx\n```\n- b".to_string()),
        vec![
            UnformattedMarkdownBlock::UnorderedList(strings(&["- a"])),
            UnformattedMarkdownBlock::Code(strings(&["x"])),
            UnformattedMarkdownBlock::UnorderedList(strings(&["- b"])),
        ]
    );
}

#[test]
fn indented_markers_stay_in_the_list() {
    assert_eq!(
        split_markdown_into_blocks("- a\n  - b\n\t- c\n".to_string()),
        vec![UnformattedMarkdownBlock::UnorderedList(strings(&["- a", "  - b", "\t- c"]))]
    );
}

#[test]
fn ordered_marker_needs_digits_and_a_full_stop() {
    assert_eq!(
        split_markdown_into_blocks(". x\n1 x\n12. x".to_string()),
        vec![
            UnformattedMarkdownBlock::Regular(strings(&[". x", "1 x"])),
            UnformattedMarkdownBlock::OrderedList(strings(&["12. x"])),
        ]
    );
}

#[test]
fn blank_lines_stay_in_their_block() {
    assert_eq!(
        split_markdown_into_blocks("a\n\nb\n".to_string()),
        vec![UnformattedMarkdownBlock::Regular(strings(&["a", "", "b"]))]
    );
}

#[test]
fn blocks_hold_every_line_but_the_fences() {
    let text = "# T\n\ntext\n- a\n- b\n```\ncode\n- x\n```\n1. one\n> quote\n```\nopen";
    let blocks = split_markdown_into_blocks(text.to_string());
    let mut from_blocks: Vec<String> = Vec::new();
    for block in &blocks {
        from_blocks.extend(lines_of_block(block));
    }
    let expected: Vec<String> =
        document_lines(text).into_iter().filter(|l| !l.starts_with("```")).collect();
    assert_eq!(from_blocks, expected);
    assert_eq!(blocks.len(), 6);
}

#[test]
fn lines_of_a_block_share_its_kind() {
    let text = "a\n1. x\n2. y\nb\n- c\n\t* d\n```\n- e\n1. f\n```\ng\n```\n";
    let blocks = split_markdown_into_blocks(text.to_string());
    assert_eq!(blocks.len(), 7);
    for block in &blocks {
        match block {
            UnformattedMarkdownBlock::OrderedList(lines) => {
                assert!(!lines.is_empty());
                for l in lines {
                    assert!(l.trim_start().starts_with(|c: char| c.is_ascii_digit()));
                }
            }
            UnformattedMarkdownBlock::UnorderedList(lines) => {
                assert!(!lines.is_empty());
                for l in lines {
                    assert!(l.trim_start().starts_with(|c: char| c == '-' || c == '*' || c == '+'));
                }
            }
            UnformattedMarkdownBlock::Regular(lines) => {
                assert!(!lines.is_empty());
                for l in lines {
                    assert!(l.len() == 1);
                }
            }
            UnformattedMarkdownBlock::Code(lines) => {
                for l in lines {
                    assert!(!l.starts_with("```"));
                }
            }
        }
    }
}

#[test]
fn blocks_can_be_copied() {
    let blocks = split_markdown_into_blocks("a\n- b".to_string());
    assert_eq!(blocks.clone(), blocks);
}

#[test]
fn text_can_be_split_without_being_taken_over() {
    let text = "a\n- b\n```\nc";
    assert_eq!(split_text_into_blocks(text), split_markdown_into_blocks(text.to_string()));
    assert_eq!(split_text_into_blocks(text).len(), 3);
}

#[test]
fn lines_are_those_of_the_standard_library() {
    for text in [
        "",
        "a",
        "a\n",
        "a\nb",
        "a\r\nb\r\n",
        "a\rb",
        "a\r",
        "\r\n",
        "\r",
        "\n\r",
        "a\n\r\nb",
        "a\r\r\nb",
        "\n\n",
        "# T\r\n- a\r\n```\r\nx\r\n```\r\n",
    ] {
        let expected: Vec<String> = text.lines().map(|l| l.to_string()).collect();
        assert_eq!(document_lines(text), expected, "{text:?}");
    }
}

#[test]
fn carriage_returns_before_line_feeds_are_dropped() {
    assert_eq!(
        split_text_into_blocks("# T\r\n- a\r\n```\r\nx\r\n```\r\ntail\r"),
        vec![
            UnformattedMarkdownBlock::Regular(strings(&["# T"])),
            UnformattedMarkdownBlock::UnorderedList(strings(&["- a"])),
            UnformattedMarkdownBlock::Code(strings(&["x"])),
            UnformattedMarkdownBlock::Regular(strings(&["tail\r"])),
        ]
    );
}
