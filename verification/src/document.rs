//! The document model: the blocks of a document, each with its lines, and
//! each line of a block that is no code with its role and its inline
//! segments.

use crate::blocks::{
    blocks_of, split_text_into_blocks, BlockFlags, BlockModel, UnformattedMarkdownBlock,
};
use crate::inline::{
    append_inline, inline_segments, inline_text, lemma_inline_segments_keep_text,
    lemma_marked_mask_serves_underscores, lemma_marked_text_remains, Bracketed,
};
use crate::line::{body_start, classify, lemma_body_start, line_role, text_start, LineOptions, LineRole};
use crate::model::{lemma_visible_text_one, visible_text, InlineSegment, TextImage};
use crate::patterns::{horizontal_rule, match_horizontal_rule};
use crate::text::{
    chars_of, lemma_remains_all_or_nothing, lemma_remains_of_stretch, lemma_views_push, lines_of,
    remains_of, views,
};
use crate::words::{has_no_underscore, needed_mask, needed_word_mask, word_mask_of};
use vstd::prelude::*;
use vstd::slice::slice_subrange;

verus! {

/// What a formatted line is: its role and its inline segments, in order.
pub struct LineModel {
    pub role: LineRole,
    pub segments: Seq<InlineSegment>,
}

/// A line of a block that is no code.
#[derive(Clone, Debug, PartialEq, Eq)]
pub struct FormattedLine {
    pub line_options: LineOptions,
    pub sections: Vec<TextImage>,
}

impl View for FormattedLine {
    type V = LineModel;

    open spec fn view(&self) -> LineModel {
        LineModel { role: self.line_options@, segments: views(self.sections@) }
    }
}

/// What a formatted block is.
pub enum FormattedBlockModel {
    OrderedList(Seq<LineModel>),
    UnorderedList(Seq<LineModel>),
    Code(Seq<Seq<char>>),
    Regular(Seq<LineModel>),
}

/// A block of the document model. A code block keeps its lines as they are;
/// the lines of any other block are formatted.
#[derive(Clone, Debug, PartialEq, Eq)]
pub enum FormattedMarkdownBlock {
    OrderedList(Vec<FormattedLine>),
    UnorderedList(Vec<FormattedLine>),
    Code(Vec<String>),
    Regular(Vec<FormattedLine>),
}

impl View for FormattedMarkdownBlock {
    type V = FormattedBlockModel;

    open spec fn view(&self) -> FormattedBlockModel {
        match self {
            FormattedMarkdownBlock::OrderedList(lines) => FormattedBlockModel::OrderedList(
                views(lines@),
            ),
            FormattedMarkdownBlock::UnorderedList(lines) => FormattedBlockModel::UnorderedList(
                views(lines@),
            ),
            FormattedMarkdownBlock::Code(lines) => FormattedBlockModel::Code(views(lines@)),
            FormattedMarkdownBlock::Regular(lines) => FormattedBlockModel::Regular(views(lines@)),
        }
    }
}

/// The inline segments of `line`, whose characters have the word mask `word`.
/// A horizontal rule is one segment of its own. Of any other line the text
/// that follows the markers of its role is taken apart.
pub open spec fn line_segments(line: Seq<char>, word: Seq<bool>) -> Seq<InlineSegment> {
    if horizontal_rule(line) {
        seq![InlineSegment::HorizontalRule]
    } else {
        inline_segments(
            line.subrange(body_start(line), line.len() as int),
            word.subrange(body_start(line), line.len() as int),
        )
    }
}

/// The text that `line` shows: nothing for a horizontal rule, and for any
/// other line what follows the markers of its role, with its markup syntax
/// removed.
pub open spec fn line_text(line: Seq<char>, word: Seq<bool>) -> Seq<char> {
    if horizontal_rule(line) {
        Seq::empty()
    } else {
        inline_text(
            line.subrange(body_start(line), line.len() as int),
            word.subrange(body_start(line), line.len() as int),
        )
    }
}

/// The formatted line of `line`, whose characters have the word mask `word`.
pub open spec fn formatted_line(line: Seq<char>, word: Seq<bool>) -> LineModel {
    LineModel { role: line_role(line, 0), segments: line_segments(line, word) }
}

/// The formatted lines of `lines`, each with the word mask that the split at
/// its word boundaries gives.
pub open spec fn formatted_lines(lines: Seq<Seq<char>>) -> Seq<LineModel> {
    lines.map_values(|line: Seq<char>| formatted_line(line, word_mask_of(line)))
}

/// The formatted block of a block of raw lines.
pub open spec fn formatted_block(block: BlockModel) -> FormattedBlockModel {
    match block.kind {
        BlockFlags::CodeBlock => FormattedBlockModel::Code(block.lines),
        BlockFlags::Ordered => FormattedBlockModel::OrderedList(formatted_lines(block.lines)),
        BlockFlags::Unordered => FormattedBlockModel::UnorderedList(formatted_lines(block.lines)),
        BlockFlags::Regular => FormattedBlockModel::Regular(formatted_lines(block.lines)),
    }
}

/// The document model of a text: its blocks, formatted.
pub open spec fn document_of(text: Seq<char>) -> Seq<FormattedBlockModel> {
    blocks_of(lines_of(text)).map_values(|block: BlockModel| formatted_block(block))
}

/// The segments of a line show the text of the line with its markup syntax
/// removed, and nothing else. That text is what remains of the line when
/// some of its characters are taken out: nothing is added to it, and nothing
/// in it changes place.
pub proof fn lemma_line_segments_keep_text(line: Seq<char>, word: Seq<bool>)
    requires
        word.len() == line.len(),
    ensures
        visible_text(line_segments(line, word)) == line_text(line, word),
        remains_of(line_text(line, word), line),
{
    if horizontal_rule(line) {
        lemma_visible_text_one(InlineSegment::HorizontalRule);
        lemma_remains_all_or_nothing(line);
    } else {
        lemma_body_start(line);
        let body = line.subrange(body_start(line), line.len() as int);
        let body_word = word.subrange(body_start(line), line.len() as int);
        lemma_inline_segments_keep_text(body, body_word);
        lemma_marked_text_remains(body, body_word, Bracketed::Image);
        lemma_remains_of_stretch(line_text(line, word), line, body_start(line), line.len() as int);
    }
}

/// The word mask is read for underscores only: a line without an underscore
/// has the same formatted line and the same text under any two masks.
pub proof fn lemma_line_mask_serves_underscores(
    line: Seq<char>,
    first: Seq<bool>,
    second: Seq<bool>,
)
    requires
        has_no_underscore(line),
    ensures
        formatted_line(line, first) == formatted_line(line, second),
        line_text(line, first) == line_text(line, second),
{
    lemma_body_start(line);
    let start = body_start(line);
    let n = line.len() as int;
    let body = line.subrange(start, n);
    assert forall|i: int| 0 <= i < body.len() implies #[trigger] body[i] != '_' by {
        assert(body[i] == line[start + i]);
    }
    lemma_marked_mask_serves_underscores(
        body,
        first.subrange(start, n),
        second.subrange(start, n),
        Bracketed::Image,
    );
}

/// Formats the line `line`, whose characters have the word mask `word`.
pub fn format_line(line: &[char], word: &[bool]) -> (formatted: FormattedLine)
    requires
        word.len() == line.len(),
    ensures
        formatted@ == formatted_line(line@, word@),
        formatted@.role.well_formed(),
        visible_text(formatted@.segments) == line_text(line@, word@),
        remains_of(line_text(line@, word@), line@),
{
    proof {
        lemma_line_segments_keep_text(line@, word@);
    }
    let line_options = classify(line, 0);
    let mut sections: Vec<TextImage> = Vec::new();
    if match_horizontal_rule(line) {
        proof {
            lemma_views_push(sections@, TextImage::HorizontalRule);
        }
        sections.push(TextImage::HorizontalRule);
        assert(views(sections@) =~= seq![InlineSegment::HorizontalRule]);
    } else {
        let start: usize = text_start(line);
        let body = slice_subrange(line, start, line.len());
        let body_word = slice_subrange(word, start, line.len());
        append_inline(&mut sections, body, body_word);
    }
    FormattedLine { line_options, sections }
}

/// Formats the line `line`, with the word mask that the split at its word
/// boundaries gives. The line is split only where it holds an underscore.
pub fn format_text_line(line: &str) -> (formatted: FormattedLine)
    ensures
        formatted@ == formatted_line(line@, word_mask_of(line@)),
        formatted@.role.well_formed(),
        visible_text(formatted@.segments) == line_text(line@, word_mask_of(line@)),
        remains_of(line_text(line@, word_mask_of(line@)), line@),
{
    let chars = chars_of(line);
    let word = needed_word_mask(line, chars.as_slice());
    proof {
        if has_no_underscore(line@) {
            lemma_line_mask_serves_underscores(line@, needed_mask(line@), word_mask_of(line@));
        }
    }
    format_line(chars.as_slice(), word.as_slice())
}

/// Formats each of `lines`.
fn format_lines(lines: &Vec<String>) -> (formatted: Vec<FormattedLine>)
    ensures
        views(formatted@) == formatted_lines(views(lines@)),
{
    let mut formatted: Vec<FormattedLine> = Vec::new();
    let mut i: usize = 0;
    while i < lines.len()
        invariant
            i <= lines.len(),
            formatted.len() == i,
            forall|j: int|
                0 <= j < i ==> (#[trigger] formatted[j])@ == formatted_line(
                    lines[j]@,
                    word_mask_of(lines[j]@),
                ),
        decreases lines.len() - i,
    {
        let line = format_text_line(lines[i].as_str());
        formatted.push(line);
        i += 1;
    }
    formatted
}

impl FormattedMarkdownBlock {
    /// Formats a block of raw lines. The kind of the block stays; a code
    /// block keeps its lines, and each line of any other block gets its role
    /// and its inline segments.
    pub fn from_unformatted(block: UnformattedMarkdownBlock) -> (formatted: FormattedMarkdownBlock)
        ensures
            formatted@ == formatted_block(block@),
    {
        match block {
            UnformattedMarkdownBlock::Code(content) => FormattedMarkdownBlock::Code(content),
            UnformattedMarkdownBlock::OrderedList(content) => FormattedMarkdownBlock::OrderedList(
                format_lines(&content),
            ),
            UnformattedMarkdownBlock::UnorderedList(content) => {
                FormattedMarkdownBlock::UnorderedList(format_lines(&content))
            },
            UnformattedMarkdownBlock::Regular(content) => FormattedMarkdownBlock::Regular(
                format_lines(&content),
            ),
        }
    }
}

/// Parses a document into its model. Every text has a model: nothing is
/// refused, and markup that is not complete stays in the model as text.
///
/// The lines are those that `str::lines` gives: they end at a line feed, with
/// or without a carriage return before it. A text that separates its lines in
/// another way has to be brought to line feeds first.
pub fn parse_document(markdown: &str) -> (document: Vec<FormattedMarkdownBlock>)
    ensures
        views(document@) == document_of(markdown@),
{
    let blocks = split_text_into_blocks(markdown);
    let ghost raw = blocks@;
    let mut document: Vec<FormattedMarkdownBlock> = Vec::new();
    for block in it: blocks.into_iter()
        invariant
            it.seq() == raw,
            document.len() == it.index(),
            forall|j: int|
                0 <= j < document.len() ==> (#[trigger] document[j])@ == formatted_block(raw[j]@),
    {
        let formatted = FormattedMarkdownBlock::from_unformatted(block);
        document.push(formatted);
    }
    document
}

} // verus!
