//! The inline segments of a line: runs of text with their modifiers, images
//! and links.

use vstd::prelude::*;

verus! {

/// The modifiers of a run of text. Each is set or not on its own.
#[derive(Clone, Copy, Debug, PartialEq, Eq, Structural)]
pub struct MarkdownModifers {
    pub bold: bool,
    pub italic: bool,
    pub code: bool,
}

impl MarkdownModifers {
    /// No modifier set.
    pub open spec fn plain() -> MarkdownModifers {
        MarkdownModifers { bold: false, italic: false, code: false }
    }

    /// No modifier set.
    pub fn normal() -> (m: MarkdownModifers)
        ensures
            m == MarkdownModifers::plain(),
    {
        MarkdownModifers { bold: false, italic: false, code: false }
    }
}

/// What an inline segment is.
pub enum InlineSegment {
    /// A run of text under one combination of modifiers.
    Text { content: Seq<char>, modifiers: MarkdownModifers },
    /// An image, with its alternative text and its address.
    Image { alt_text: Seq<char>, url: Seq<char> },
    /// A link, with its address and its text.
    Link { url: Seq<char>, text: Seq<char> },
    /// The mark of a line that is a horizontal rule.
    HorizontalRule,
}

/// A run of text under one combination of modifiers.
#[derive(Clone, Debug, PartialEq, Eq)]
pub struct TextData {
    pub content: String,
    pub text_options: MarkdownModifers,
}

/// An image.
#[derive(Clone, Debug, PartialEq, Eq)]
pub struct ImageData {
    pub alt_text: String,
    pub image_url: String,
}

/// A link.
#[derive(Clone, Debug, PartialEq, Eq)]
pub struct LinkData {
    pub url: String,
    pub text: String,
}

/// One inline segment of a line.
#[derive(Clone, Debug, PartialEq, Eq)]
pub enum TextImage {
    Text(TextData),
    Image(ImageData),
    Link(LinkData),
    HorizontalRule,
}

impl View for TextImage {
    type V = InlineSegment;

    open spec fn view(&self) -> InlineSegment {
        match self {
            TextImage::Text(data) => InlineSegment::Text {
                content: data.content@,
                modifiers: data.text_options,
            },
            TextImage::Image(data) => InlineSegment::Image {
                alt_text: data.alt_text@,
                url: data.image_url@,
            },
            TextImage::Link(data) => InlineSegment::Link { url: data.url@, text: data.text@ },
            TextImage::HorizontalRule => InlineSegment::HorizontalRule,
        }
    }
}

/// The text that a segment shows: the content of a run, the alternative text
/// of an image, the text of a link. A horizontal rule shows none.
pub open spec fn segment_text(segment: InlineSegment) -> Seq<char> {
    match segment {
        InlineSegment::Text { content, .. } => content,
        InlineSegment::Image { alt_text, .. } => alt_text,
        InlineSegment::Link { text, .. } => text,
        InlineSegment::HorizontalRule => Seq::empty(),
    }
}

/// The text that a sequence of segments shows, in order.
pub open spec fn visible_text(segments: Seq<InlineSegment>) -> Seq<char> {
    segments.map_values(|segment: InlineSegment| segment_text(segment)).flatten()
}

/// The text of two sequences of segments, one after the other, is the text of
/// the first followed by the text of the second.
pub proof fn lemma_visible_text_add(a: Seq<InlineSegment>, b: Seq<InlineSegment>)
    ensures
        visible_text(a + b) == visible_text(a) + visible_text(b),
{
    let f = |segment: InlineSegment| segment_text(segment);
    assert((a + b).map_values(f) =~= a.map_values(f) + b.map_values(f));
    vstd::seq_lib::lemma_flatten_concat(a.map_values(f), b.map_values(f));
}

/// The text of no segment is empty, and the text of one segment is its own.
pub proof fn lemma_visible_text_one(segment: InlineSegment)
    ensures
        visible_text(Seq::empty()) == Seq::<char>::empty(),
        visible_text(seq![segment]) == segment_text(segment),
{
    let f = |segment: InlineSegment| segment_text(segment);
    assert(seq![segment].map_values(f) =~= seq![segment_text(segment)]);
    seq![segment_text(segment)].lemma_flatten_one_element();
}

impl TextImage {
    /// A run of text with the given modifiers.
    pub fn new(from_str: &str, text_options: MarkdownModifers) -> (segment: TextImage)
        ensures
            segment@ == (InlineSegment::Text { content: from_str@, modifiers: text_options }),
    {
        TextImage::Text(TextData { content: from_str.to_owned(), text_options })
    }
}

} // verus!
