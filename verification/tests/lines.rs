use markdown_elements::line::text_start;
use markdown_elements::patterns::{
    find_image_markup, find_link_markup, match_code_fence_delimiter, match_heading_marker,
    match_horizontal_rule, match_ordered_list_marker, match_unordered_list_marker, skip_quotes,
};
use markdown_elements::text::{chars_of, has_class, scan_run, scan_two, string_of, CharClass};
use markdown_elements::{classify, LineOptions};

fn cs(s: &str) -> Vec<char> {
    s.chars().collect()
}

#[test]
fn classification_is_repeatable() {
    for line in ["# Title", "- a", "> q", "---", "plain", "```", "1. x", ""] {
        assert_eq!(LineOptions::new(line), LineOptions::new(line));
        assert_eq!(classify(&cs(line), 3), classify(&cs(line), 3));
    }
}

#[test]
fn headings_have_levels_one_to_six() {
    assert_eq!(LineOptions::new("# Title"), LineOptions::Heading(1));
    assert_eq!(LineOptions::new("### Title"), LineOptions::Heading(3));
    assert_eq!(LineOptions::new("######\tTitle"), LineOptions::Heading(6));
    assert_eq!(LineOptions::new("####### Title"), LineOptions::Plain);
    assert_eq!(LineOptions::new("#Title"), LineOptions::Plain);
    assert_eq!(LineOptions::new("#"), LineOptions::Plain);
    assert_eq!(LineOptions::new(" # Title"), LineOptions::Plain);
}

#[test]
fn list_items_have_depths() {
    assert_eq!(LineOptions::new("- a"), LineOptions::UnorderedListLine(1));
    assert_eq!(LineOptions::new("* a"), LineOptions::UnorderedListLine(1));
    assert_eq!(LineOptions::new("+a"), LineOptions::UnorderedListLine(1));
    assert_eq!(LineOptions::new(" - a"), LineOptions::UnorderedListLine(1));
    assert_eq!(LineOptions::new("  - a"), LineOptions::UnorderedListLine(2));
    assert_eq!(LineOptions::new("     - a"), LineOptions::UnorderedListLine(3));
    assert_eq!(LineOptions::new("\t- a"), LineOptions::UnorderedListLine(2));
    assert_eq!(LineOptions::new("\t \t  - a"), LineOptions::UnorderedListLine(4));
    assert_eq!(LineOptions::new("1. a"), LineOptions::OrderedListLine(1));
    assert_eq!(LineOptions::new("    10. a"), LineOptions::OrderedListLine(3));
    assert_eq!(LineOptions::new("1 a"), LineOptions::Plain);
    assert_eq!(LineOptions::new(". a"), LineOptions::Plain);
}

#[test]
fn quotes_count_their_markers() {
    assert_eq!(LineOptions::new("> q"), LineOptions::Blockquote(1));
    assert_eq!(LineOptions::new(">> q"), LineOptions::Blockquote(2));
    assert_eq!(LineOptions::new("> > >q"), LineOptions::Blockquote(3));
    assert_eq!(LineOptions::new(">"), LineOptions::Blockquote(1));
    assert_eq!(LineOptions::new("> # T"), LineOptions::BlockquoteHeading(1, 1));
    assert_eq!(LineOptions::new(">> ### T"), LineOptions::BlockquoteHeading(2, 3));
    assert_eq!(LineOptions::new("> - item"), LineOptions::Blockquote(1));
    assert_eq!(LineOptions::new("> ---"), LineOptions::Blockquote(1));
}

#[test]
fn depth_so_far_is_added() {
    assert_eq!(classify(&cs("text"), 2), LineOptions::Blockquote(2));
    assert_eq!(classify(&cs("> text"), 2), LineOptions::Blockquote(3));
    assert_eq!(classify(&cs("## T"), 1), LineOptions::BlockquoteHeading(1, 2));
    assert_eq!(classify(&cs("---"), 1), LineOptions::Blockquote(1));
    assert_eq!(classify(&cs("---"), 0), LineOptions::HorizontalRule);
}

#[test]
fn rules_fences_and_plain_lines() {
    assert_eq!(LineOptions::new("---"), LineOptions::HorizontalRule);
    assert_eq!(LineOptions::new("  ------\t"), LineOptions::HorizontalRule);
    assert_eq!(LineOptions::new("--"), LineOptions::UnorderedListLine(1));
    assert_eq!(LineOptions::new("--- x"), LineOptions::UnorderedListLine(1));
    assert_eq!(LineOptions::new("```"), LineOptions::Code);
    assert_eq!(LineOptions::new("```rust"), LineOptions::Code);
    assert_eq!(LineOptions::new("``"), LineOptions::Plain);
    assert_eq!(LineOptions::new(""), LineOptions::Plain);
    assert_eq!(LineOptions::new("just text"), LineOptions::Plain);
    assert_eq!(LineOptions::new("**bold** text"), LineOptions::UnorderedListLine(1));
}

#[test]
fn text_begins_after_the_markers() {
    assert_eq!(text_start(&cs("# Title")), 2);
    assert_eq!(text_start(&cs("##   Title")), 5);
    assert_eq!(text_start(&cs("> quote")), 2);
    assert_eq!(text_start(&cs("> > # T")), 6);
    assert_eq!(text_start(&cs("- item")), 0);
    assert_eq!(text_start(&cs("  plain")), 0);
    assert_eq!(text_start(&cs(">")), 1);
    assert_eq!(text_start(&cs("")), 0);
}

#[test]
fn patterns_on_their_own() {
    assert!(match_code_fence_delimiter(&cs("```")));
    assert!(!match_code_fence_delimiter(&cs(" ```")));
    assert_eq!(match_ordered_list_marker(&cs("  7. x")), Some(2));
    assert_eq!(match_ordered_list_marker(&cs("7 x")), None);
    assert_eq!(match_unordered_list_marker(&cs("+ x")), Some(1));
    assert_eq!(match_unordered_list_marker(&cs("x")), None);
    assert!(match_horizontal_rule(&cs("---")));
    assert!(!match_horizontal_rule(&cs("- - -")));
    assert!(!match_horizontal_rule(&cs("")));
    assert_eq!(match_heading_marker(&cs("> ## T"), 2), Some(2));
    assert_eq!(match_heading_marker(&cs("> ## T"), 0), None);
    assert_eq!(skip_quotes(&cs(">> > x"), 0), (5, 3));
    assert_eq!(skip_quotes(&cs("x"), 0), (0, 0));
}

#[test]
fn image_and_link_markup_are_found_leftmost_and_shortest() {
    assert_eq!(find_image_markup(&cs("![alt](img.png) more")), Some((0, 5, 14)));
    assert_eq!(find_image_markup(&cs("a ![x](y) ![z](w)")), Some((2, 5, 8)));
    assert_eq!(find_image_markup(&cs("![x](y")), None);
    assert_eq!(find_image_markup(&cs("![x] (y)")), None);
    assert_eq!(find_image_markup(&cs("!x](y)")), None);
    assert_eq!(find_image_markup(&cs("![](")), None);
    assert_eq!(find_image_markup(&cs("![]()")), Some((0, 2, 4)));
    assert_eq!(find_image_markup(&cs("![a](b)c)")), Some((0, 3, 6)));
    assert_eq!(find_link_markup(&cs("see [here](u) and [there](v)")), Some((4, 9, 12)));
    assert_eq!(find_link_markup(&cs("[a] [b](c)")), Some((0, 6, 9)));
    assert_eq!(find_link_markup(&cs("[a](b")), None);
    assert_eq!(find_link_markup(&cs("a](b)")), None);
    assert_eq!(find_link_markup(&cs("")), None);
}

#[test]
fn runs_and_pairs() {
    let s = cs("  12ab");
    assert_eq!(scan_run(&s, 0, CharClass::Blank), 2);
    assert_eq!(scan_run(&s, 2, CharClass::Digit), 4);
    assert_eq!(scan_run(&s, 4, CharClass::Digit), 4);
    assert_eq!(scan_run(&s, 0, CharClass::Except('a')), 4);
    assert_eq!(scan_run(&s, 4, CharClass::Only('a')), 5);
    assert_eq!(scan_run(&s, 6, CharClass::Blank), 6);
    assert_eq!(scan_two(&s, 0, '2', 'a'), 3);
    assert_eq!(scan_two(&s, 4, '2', 'a'), 6);
    assert_eq!(scan_two(&s, 0, 'b', 'a'), 6);
    assert_eq!(scan_two(&s, 9, 'a', 'b'), 6);
    assert_eq!(string_of(&s, 2, 5), "12a");
    assert_eq!(chars_of("h\u{e9}"), vec!['h', '\u{e9}']);
}

#[test]
fn rule_is_trimmed_of_every_white_space() {
    for line in ["---\u{a0}", "---\r", "\u{c}---", "\u{3000}----\u{2009}", "\n---\n", " \t---\u{85}"] {
        assert_eq!(LineOptions::new(line), LineOptions::HorizontalRule, "{line:?}");
        assert!(match_horizontal_rule(&cs(line)), "{line:?}");
    }
    assert_eq!(LineOptions::new("---\u{200b}"), LineOptions::UnorderedListLine(1));
    assert_eq!(LineOptions::new("--\u{a0}-"), LineOptions::UnorderedListLine(1));
    assert_eq!(LineOptions::new("\u{a0}--"), LineOptions::Plain);
}

#[test]
fn white_space_is_what_trim_strips() {
    for code in 0..=0x10FFFFu32 {
        if let Some(c) = char::from_u32(code) {
            assert_eq!(has_class(c, CharClass::White), c.is_whitespace(), "U+{code:04X}");
        }
    }
    assert!(has_class('\t', CharClass::Blank));
    assert!(!has_class('\r', CharClass::Blank));
    assert!(!has_class('\u{a0}', CharClass::Blank));
}
