use markdown_elements::emphasis::{label_text, mark_flanks, tally_closers, FlankMarks};
use markdown_elements::inline::{append_inline, append_links};
use markdown_elements::words::{mark_words, needed_word_mask, word_mask_for};
use markdown_elements::{
    format_line, format_text_line, split_into_sections, split_with_mask, ImageData, LineOptions,
    LinkData, MarkdownModifers, TextData, TextImage,
};

fn cs(s: &str) -> Vec<char> {
    s.chars().collect()
}

fn mods(bold: bool, italic: bool, code: bool) -> MarkdownModifers {
    MarkdownModifers { bold, italic, code }
}

fn text(content: &str, m: MarkdownModifers) -> TextImage {
    TextImage::Text(TextData { content: content.to_string(), text_options: m })
}

fn plain(content: &str) -> TextImage {
    text(content, mods(false, false, false))
}

fn bold(content: &str) -> TextImage {
    text(content, mods(true, false, false))
}

fn italic(content: &str) -> TextImage {
    text(content, mods(false, true, false))
}

fn code(content: &str) -> TextImage {
    text(content, mods(false, false, true))
}

fn image(alt: &str, url: &str) -> TextImage {
    TextImage::Image(ImageData { alt_text: alt.to_string(), image_url: url.to_string() })
}

fn link(text: &str, url: &str) -> TextImage {
    TextImage::Link(LinkData { url: url.to_string(), text: text.to_string() })
}

fn segments(line: &str) -> Vec<TextImage> {
    format_text_line(line).sections
}

fn shown(sections: &[TextImage]) -> String {
    let mut out = String::new();
    for s in sections {
        match s {
            TextImage::Text(t) => out.push_str(&t.content),
            TextImage::Image(i) => out.push_str(&i.alt_text),
            TextImage::Link(l) => out.push_str(&l.text),
            TextImage::HorizontalRule => {}
        }
    }
    out
}

#[test]
fn bold_then_plain() {
    assert_eq!(segments("**bold** text"), vec![bold("bold"), plain(" text")]);
}

#[test]
fn image_then_plain() {
    assert_eq!(segments("![alt](img.png) more"), vec![image("alt", "img.png"), plain(" more")]);
}

#[test]
fn rule_is_one_segment() {
    let line = format_text_line("---");
    assert_eq!(line.line_options, LineOptions::HorizontalRule);
    assert_eq!(line.sections, vec![TextImage::HorizontalRule]);
    assert_eq!(segments("  ----  "), vec![TextImage::HorizontalRule]);
}

#[test]
fn heading_text_has_no_marker() {
    let line = format_text_line("# Title");
    assert_eq!(line.line_options, LineOptions::Heading(1));
    assert_eq!(line.sections, vec![plain("Title")]);
    let quoted = format_text_line("> ## A *b*");
    assert_eq!(quoted.line_options, LineOptions::BlockquoteHeading(1, 2));
    assert_eq!(quoted.sections, vec![plain("A "), italic("b")]);
    assert_eq!(segments("> quote"), vec![plain("quote")]);
}

#[test]
fn list_marker_stays_in_the_text() {
    let line = format_text_line("- a");
    assert_eq!(line.line_options, LineOptions::UnorderedListLine(1));
    assert_eq!(line.sections, vec![plain("- a")]);
    assert_eq!(segments("1. *x*"), vec![plain("1. "), italic("x")]);
}

#[test]
fn empty_line_has_no_segment() {
    assert_eq!(segments(""), vec![]);
    assert_eq!(segments("# "), vec![]);
    assert_eq!(segments("****"), vec![]);
}

#[test]
fn modifiers_combine() {
    assert_eq!(segments("a ***x*** b"), vec![plain("a "), text("x", mods(true, true, false)), plain(" b")]);
    assert_eq!(
        segments("x *a **b** c* y"),
        vec![plain("x "), italic("a "), text("b", mods(true, true, false)), italic(" c"), plain(" y")]
    );
    assert_eq!(
        segments("**a `b` c**"),
        vec![bold("a "), text("b", mods(true, false, true)), bold(" c")]
    );
    assert_eq!(
        segments("x **a *b** c* y"),
        vec![plain("x "), bold("a "), text("b", mods(true, true, false)), italic(" c"), plain(" y")]
    );
}

#[test]
fn unpaired_delimiters_are_text() {
    assert_eq!(segments("a ** b"), vec![plain("a ** b")]);
    assert_eq!(segments("a * b"), vec![plain("a * b")]);
    assert_eq!(segments("a ` b"), vec![plain("a ` b")]);
    assert_eq!(segments("x *a* b* c"), vec![plain("x "), italic("a"), plain(" b* c")]);
    assert_eq!(segments("`a` b ` c"), vec![code("a"), plain(" b ` c")]);
    assert_eq!(segments("x *a_"), vec![plain("x *a_")]);
    assert_eq!(segments("x **a*"), vec![plain("x **a*")]);
    assert_eq!(segments("["), vec![plain("[")]);
    assert_eq!(segments("[a](b"), vec![plain("[a](b")]);
    assert_eq!(segments("![a]"), vec![plain("![a]")]);
}

#[test]
fn code_spans_keep_their_delimiters() {
    assert_eq!(segments("`a*b*c`"), vec![code("a*b*c")]);
    assert_eq!(segments("x `**` *y*"), vec![plain("x "), code("**"), plain(" "), italic("y")]);
    assert_eq!(segments("x *a `b* c` d*"), vec![plain("x "), italic("a "), text("b* c", mods(false, true, true)), italic(" d")]);
}

#[test]
fn runs_join_over_markup() {
    assert_eq!(segments("a**b****c**d"), vec![plain("a"), bold("bc"), plain("d")]);
    assert_eq!(segments("x **** y"), vec![plain("x  y")]);
}

#[test]
fn underscores_inside_words_are_text() {
    assert_eq!(segments("snake_case_name"), vec![plain("snake_case_name")]);
    assert_eq!(segments("a_b_ c"), vec![plain("a_b_ c")]);
    assert_eq!(segments("_emph_ x"), vec![italic("emph"), plain(" x")]);
    assert_eq!(segments("x __init__ y"), vec![plain("x "), bold("init"), plain(" y")]);
    assert_eq!(segments("___x___"), vec![text("x", mods(true, true, false))]);
    assert_eq!(segments("_a_b_"), vec![italic("a_b")]);
    assert_eq!(segments("\u{e9}_t\u{e9}_ _\u{e9}t\u{e9}_"), vec![plain("\u{e9}_t\u{e9}_ "), italic("\u{e9}t\u{e9}")]);
}

#[test]
fn links_and_images_come_in_order() {
    assert_eq!(
        segments("see [here](http://x.y/z) and ![pic](p.png)!"),
        vec![plain("see "), link("here", "http://x.y/z"), plain(" and "), image("pic", "p.png"), plain("!")]
    );
    assert_eq!(segments("[a](b)[c](d)"), vec![link("a", "b"), link("c", "d")]);
    assert_eq!(segments("![](u)"), vec![image("", "u")]);
    assert_eq!(segments("[t]()"), vec![link("t", "")]);
}

#[test]
fn delimiters_in_brackets_do_not_pair_outside() {
    assert_eq!(segments("*a [b*](u) c"), vec![plain("*a "), link("b*", "u"), plain(" c")]);
    assert_eq!(segments("**a ![x](y) b**"), vec![plain("**a "), image("x", "y"), plain(" b**")]);
    assert_eq!(segments("*a* ![*x*](y) *b*"), vec![italic("a"), plain(" "), image("*x*", "y"), plain(" "), italic("b")]);
}

#[test]
fn image_is_found_before_the_link_around_it() {
    assert_eq!(segments("[a ![x](y) b](z)"), vec![plain("[a "), image("x", "y"), plain(" b](z)")]);
    assert_eq!(segments("[![x](y)](z)"), vec![plain("["), image("x", "y"), plain("](z)")]);
}

#[test]
fn shown_text_is_the_line_without_markup() {
    assert_eq!(shown(&segments("**bold** text")), "bold text");
    assert_eq!(shown(&segments("![alt](img.png) more")), "alt more");
    assert_eq!(shown(&segments("a [l](u) `c` _d_ e_f *g")), "a l c d e_f *g");
    assert_eq!(shown(&segments("## Head *er*")), "Head er");
    assert_eq!(shown(&segments("---")), "");
    assert_eq!(shown(&segments("no markup at all")), "no markup at all");
}

#[test]
fn word_mask_comes_from_the_split() {
    assert_eq!(word_mask_for("a_b c"), vec![true, true, true, false, true]);
    assert_eq!(word_mask_for("**x** y"), vec![false, false, true, false, false, false, true]);
    assert_eq!(word_mask_for(""), vec![]);
    assert_eq!(word_mask_for(" - "), vec![false, false, false]);
    assert_eq!(word_mask_for("\u{e9}t\u{e9}!"), vec![true, true, true, false]);
}

#[test]
fn word_mask_marks_the_odd_parts() {
    let parts = Some(vec!["".to_string(), "ab".to_string(), " ".to_string(), "c".to_string(), "".to_string()]);
    assert_eq!(mark_words(&parts, 4), vec![true, true, false, true]);
    assert_eq!(mark_words(&parts, 6), vec![true, true, false, true, false, false]);
    assert_eq!(mark_words(&parts, 2), vec![true, true]);
    assert_eq!(mark_words(&None, 3), vec![false, false, false]);
    assert_eq!(mark_words(&Some(vec![]), 2), vec![false, false]);
}

#[test]
fn sections_with_a_given_mask() {
    let s = cs("_a_");
    assert_eq!(split_with_mask(&s, &[true, true, true]), vec![italic("a")]);
    assert_eq!(split_with_mask(&s, &[false, false, false]), vec![plain("_a_")]);
    let t = cs("a_b_");
    assert_eq!(split_with_mask(&t, &[true, true, true, true]), vec![plain("a_b_")]);
    assert_eq!(split_with_mask(&t, &[true, false, true, true]), vec![plain("a"), italic("b")]);
    assert_eq!(split_with_mask(&t, &[true, false, true, false]), vec![plain("a_b_")]);
    assert_eq!(split_with_mask(&[], &[]), vec![]);
}

#[test]
fn underscores_open_and_close_at_boundaries() {
    let s = cs("__a_b__ _");
    let word = [true, true, true, true, true, true, true, false, true];
    let marks = mark_flanks(&s, &word);
    assert_eq!(marks.opens, vec![true, true, false, false, false, false, false, false, true]);
    assert_eq!(marks.closes, vec![false, false, false, false, false, true, true, false, true]);
}

#[test]
fn underscore_that_only_closes_does_not_open() {
    assert_eq!(segments("foo_ bar_"), vec![plain("foo_ bar_")]);
    assert_eq!(segments("_foo _bar"), vec![plain("_foo _bar")]);
    assert_eq!(segments("_a _b_"), vec![italic("a _b")]);
    assert_eq!(segments("_a_ b_"), vec![italic("a"), plain(" b_")]);
}

#[test]
fn labels_and_tallies() {
    let s = cs("*a* `*` **");
    let marks = FlankMarks { opens: vec![false; s.len()], closes: vec![false; s.len()] };
    let m = Some(mods(false, false, false));
    let i = Some(mods(false, true, false));
    let c = Some(mods(false, false, true));
    assert_eq!(label_text(&s, &marks), vec![None, i, None, m, None, c, None, m, m, m]);
    let tally = tally_closers(&s, &marks);
    assert_eq!(
        (tally.bold_star, tally.bold_underscore, tally.italic_star, tally.italic_underscore),
        (1, 0, 2, 0)
    );
    let t = cs("_a_ _");
    let only_open = FlankMarks { opens: vec![true, false, false, false, true], closes: vec![false; 5] };
    assert_eq!(tally_closers(&t, &only_open).italic_underscore, 0);
    assert_eq!(label_text(&t, &only_open), vec![m, m, m, m, m]);
}

#[test]
fn segments_are_appended() {
    let s = cs("a [b](c)");
    let word = vec![false; s.len()];
    let mut out = vec![TextImage::HorizontalRule];
    append_links(&mut out, &s, &word);
    assert_eq!(out, vec![TextImage::HorizontalRule, plain("a "), link("b", "c")]);
    append_inline(&mut out, &cs("![i](j)"), &vec![false; 7]);
    assert_eq!(out.len(), 4);
    assert_eq!(out[3], image("i", "j"));
}

#[test]
fn line_with_a_given_mask() {
    let s = cs("# _x_");
    let line = format_line(&s, &[false, false, true, true, true]);
    assert_eq!(line.line_options, LineOptions::Heading(1));
    assert_eq!(line.sections, vec![italic("x")]);
}

#[test]
fn text_segment_from_a_string() {
    assert_eq!(TextImage::new("x", mods(true, false, false)), bold("x"));
    assert_eq!(MarkdownModifers::normal(), mods(false, false, false));
}

#[test]
fn text_without_markup_is_one_plain_run() {
    assert_eq!(segments("no markup at all"), vec![plain("no markup at all")]);
    assert_eq!(segments("a ] b ) c ( d ! e"), vec![plain("a ] b ) c ( d ! e")]);
    assert_eq!(segments("  indented\ttext  "), vec![plain("  indented\ttext  ")]);
}

#[test]
fn sections_of_a_string() {
    assert_eq!(split_into_sections("a *b* __c__ d_e"), vec![plain("a "), italic("b"), plain(" "), bold("c"), plain(" d_e")]);
    assert_eq!(split_into_sections("[x](y)"), vec![plain("[x](y)")]);
    assert_eq!(split_into_sections(""), vec![]);
}

#[test]
fn list_marker_is_read_as_a_delimiter() {
    let line = format_text_line("* a *b*");
    assert_eq!(line.line_options, LineOptions::UnorderedListLine(1));
    assert_eq!(line.sections, vec![italic(" a "), plain("b*")]);
    assert_eq!(segments("* a"), vec![plain("* a")]);
    assert_eq!(segments("- a *b*"), vec![plain("- a "), italic("b")]);
    assert_eq!(segments("+ a *b*"), vec![plain("+ a "), italic("b")]);
}

#[test]
fn rule_with_other_white_space_is_one_segment() {
    let line = format_text_line("---\u{a0}");
    assert_eq!(line.line_options, LineOptions::HorizontalRule);
    assert_eq!(line.sections, vec![TextImage::HorizontalRule]);
}

#[test]
fn line_without_underscore_needs_no_word_mask() {
    assert_eq!(needed_word_mask("ab c", &cs("ab c")), vec![false, false, false, false]);
    assert_eq!(needed_word_mask("", &cs("")), vec![]);
    assert_eq!(needed_word_mask("a_b c", &cs("a_b c")), vec![true, true, true, false, true]);
    assert_eq!(needed_word_mask("_", &cs("_")), vec![true]);
    for line in ["**a** *b* `c` [d](e) ![f](g)", "# Head *x*", "> q **y**", "plain words", "- *i*"] {
        let chars = cs(line);
        let with_words = format_line(&chars, &word_mask_for(line));
        assert_eq!(format_text_line(line), with_words, "{line:?}");
    }
}
