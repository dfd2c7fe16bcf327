//! The line classifier: the structural role of one line, and where the text
//! of the line begins after the markers of that role.

use crate::patterns::{
    after_quotes, code_fence_delimiter, heading_marker, horizontal_rule, item_depth,
    lemma_quotes_bounded, match_code_fence_delimiter, match_heading_marker, match_horizontal_rule,
    match_ordered_list_marker, match_unordered_list_marker, ordered_list_marker, quote_depth,
    skip_quotes, unordered_list_marker,
};
use crate::text::{chars_of, run_end, scan_run, CharClass};
use vstd::prelude::*;

verus! {

/// The structural role of a line.
pub enum LineRole {
    /// A heading of the given level.
    Heading(nat),
    /// An item of an ordered list, at the given depth.
    OrderedListItem(nat),
    /// An item of an unordered list, at the given depth.
    UnorderedListItem(nat),
    /// Quoted text, under the given number of `>`.
    Blockquote(nat),
    /// A heading inside a quotation: the number of `>`, then the level.
    BlockquoteHeading(nat, nat),
    /// A line that opens or closes a code block.
    CodeFenceDelimiter,
    /// A horizontal rule.
    HorizontalRule,
    /// Any other line.
    Plain,
}

impl LineRole {
    /// Heading levels run from one to six, and depths begin at one.
    pub open spec fn well_formed(self) -> bool {
        match self {
            LineRole::Heading(level) => 1 <= level <= 6,
            LineRole::OrderedListItem(depth) => 1 <= depth,
            LineRole::UnorderedListItem(depth) => 1 <= depth,
            LineRole::Blockquote(depth) => 1 <= depth,
            LineRole::BlockquoteHeading(depth, level) => 1 <= depth && 1 <= level <= 6,
            _ => true,
        }
    }
}

/// The structural role of a line, as the classifier gives it.
#[derive(Clone, Copy, Debug, PartialEq, Eq, Structural)]
pub enum LineOptions {
    Heading(usize),
    OrderedListLine(usize),
    UnorderedListLine(usize),
    Blockquote(usize),
    BlockquoteHeading(usize, usize),
    Code,
    HorizontalRule,
    Plain,
}

impl View for LineOptions {
    type V = LineRole;

    open spec fn view(&self) -> LineRole {
        match self {
            LineOptions::Heading(level) => LineRole::Heading(*level as nat),
            LineOptions::OrderedListLine(depth) => LineRole::OrderedListItem(*depth as nat),
            LineOptions::UnorderedListLine(depth) => LineRole::UnorderedListItem(*depth as nat),
            LineOptions::Blockquote(depth) => LineRole::Blockquote(*depth as nat),
            LineOptions::BlockquoteHeading(depth, level) => LineRole::BlockquoteHeading(
                *depth as nat,
                *level as nat,
            ),
            LineOptions::Code => LineRole::CodeFenceDelimiter,
            LineOptions::HorizontalRule => LineRole::HorizontalRule,
            LineOptions::Plain => LineRole::Plain,
        }
    }
}

/// The role of `line` when it stands inside `depth` levels of quotation
/// already.
///
/// The patterns are tried in a fixed order. Outside any quotation a
/// horizontal rule comes first. Blockquote markers come next: each `>` adds
/// one level, and the text after them is looked at for a heading only. Then
/// come, for a line outside any quotation, the heading marker, the code fence,
/// the ordered and the unordered list marker. A line that matches none of
/// them is plain.
pub open spec fn line_role(line: Seq<char>, depth: nat) -> LineRole {
    if depth == 0 && horizontal_rule(line) {
        LineRole::HorizontalRule
    } else {
        let quotes = depth + quote_depth(line, 0);
        match heading_marker(line, after_quotes(line, 0)) {
            Some(level) => if quotes == 0 {
                LineRole::Heading(level)
            } else {
                LineRole::BlockquoteHeading(quotes, level)
            },
            None => if quotes > 0 {
                LineRole::Blockquote(quotes)
            } else if code_fence_delimiter(line) {
                LineRole::CodeFenceDelimiter
            } else if ordered_list_marker(line) {
                LineRole::OrderedListItem(item_depth(line))
            } else if unordered_list_marker(line) {
                LineRole::UnorderedListItem(item_depth(line))
            } else {
                LineRole::Plain
            },
        }
    }
}

/// Where the text of `line` begins: after its blockquote markers and its
/// heading marker, with the horizontal whitespace that follows them.
///
/// A list marker is part of the text, and is read like the rest of it. So a
/// `*` that marks a list item is a delimiter as well: in `**bold** text` the
/// leading `**` opens the bold run, and in `* a *b*` the marker pairs with
/// the `*` before `b`, which leaves ` a ` italic and `b*` plain.
pub open spec fn body_start(line: Seq<char>) -> int {
    let at = after_quotes(line, 0);
    match heading_marker(line, at) {
        Some(level) => run_end(line, at + level, CharClass::Blank),
        None => at,
    }
}

/// Every role that the classifier gives is well formed, and two lines with
/// the same characters, at the same depth, have the same role.
pub proof fn lemma_line_role(line: Seq<char>, other: Seq<char>, depth: nat)
    ensures
        line_role(line, depth).well_formed(),
        line =~= other ==> line_role(line, depth) == line_role(other, depth),
{
    lemma_quotes_bounded(line, 0);
}

/// The text of a line begins inside the line.
pub proof fn lemma_body_start(line: Seq<char>)
    ensures
        0 <= body_start(line) <= line.len(),
{
    lemma_quotes_bounded(line, 0);
    let at = after_quotes(line, 0);
    crate::text::lemma_run_end(line, at, CharClass::Only('#'));
    if heading_marker(line, at) is Some {
        crate::text::lemma_run_end(line, at + heading_marker(line, at)->0, CharClass::Blank);
    }
}

/// Classifies `line`, which stands inside `depth_so_far` levels of quotation.
pub fn classify(line: &[char], depth_so_far: usize) -> (role: LineOptions)
    requires
        depth_so_far + line.len() <= usize::MAX,
    ensures
        role@ == line_role(line@, depth_so_far as nat),
        role@.well_formed(),
{
    proof {
        lemma_line_role(line@, line@, depth_so_far as nat);
    }
    if depth_so_far == 0 && match_horizontal_rule(line) {
        return LineOptions::HorizontalRule;
    }
    let (at, marks) = skip_quotes(line, 0);
    let quotes: usize = depth_so_far + marks;
    match match_heading_marker(line, at) {
        Some(level) => {
            if quotes == 0 {
                LineOptions::Heading(level)
            } else {
                LineOptions::BlockquoteHeading(quotes, level)
            }
        },
        None => {
            if quotes > 0 {
                LineOptions::Blockquote(quotes)
            } else if match_code_fence_delimiter(line) {
                LineOptions::Code
            } else if let Some(depth) = match_ordered_list_marker(line) {
                LineOptions::OrderedListLine(depth)
            } else if let Some(depth) = match_unordered_list_marker(line) {
                LineOptions::UnorderedListLine(depth)
            } else {
                LineOptions::Plain
            }
        },
    }
}

/// Finds where the text of `line` begins.
pub fn text_start(line: &[char]) -> (start: usize)
    ensures
        start == body_start(line@),
        start <= line.len(),
{
    proof {
        lemma_body_start(line@);
    }
    let (at, _marks) = skip_quotes(line, 0);
    match match_heading_marker(line, at) {
        Some(level) => {
            proof {
                crate::text::lemma_run_end(line@, at as int, CharClass::Only('#'));
            }
            scan_run(line, at + level, CharClass::Blank)
        },
        None => at,
    }
}

impl LineOptions {
    /// The role of the line `from_str`, taken outside any quotation.
    pub fn new(from_str: &str) -> (role: LineOptions)
        ensures
            role@ == line_role(from_str@, 0),
            role@.well_formed(),
    {
        let line = chars_of(from_str);
        classify(line.as_slice(), 0)
    }
}

} // verus!
