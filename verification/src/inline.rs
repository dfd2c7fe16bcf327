//! The inline extractor: the images, the links and the runs of text of one
//! piece of a line, from left to right.
//!
//! Images are found first, over the whole piece. Links are then found in the
//! text between the images, and the emphasis delimiters are read last, in the
//! text between the links. So a delimiter inside an image or a link never
//! pairs with one outside it.

use crate::emphasis::{
    append_emphasis, emphasis_segments, emphasis_text, has_no_delimiter,
    lemma_emphasis_keeps_text, lemma_emphasis_text_remains, lemma_mask_serves_underscores,
    lemma_text_without_delimiters, run_segment,
};
use crate::model::{
    lemma_visible_text_add, lemma_visible_text_one, visible_text, ImageData, InlineSegment,
    LinkData, MarkdownModifers, TextImage,
};
use crate::patterns::{find_image_markup, find_link_markup, image_markup, link_markup};
use crate::text::{
    find_two, lemma_find_two, lemma_remains_add, lemma_remains_all_or_nothing,
    lemma_remains_of_stretch, lemma_run_end, lemma_views_push, remains_of, run_end, string_of,
    views, CharClass,
};
use crate::words::has_no_underscore;
use vstd::prelude::*;
use vstd::slice::slice_subrange;

verus! {

/// The two bracketed markups.
#[derive(Clone, Copy, Debug, PartialEq, Eq, Structural)]
pub enum Bracketed {
    /// `![alt](url)`
    Image,
    /// `[text](url)`
    Link,
}

/// The leftmost markup of the given kind in `s`.
pub open spec fn markup_of(s: Seq<char>, kind: Bracketed) -> Option<(int, int, int)> {
    match kind {
        Bracketed::Image => image_markup(s),
        Bracketed::Link => link_markup(s),
    }
}

/// The number of characters that open a markup of the given kind.
pub open spec fn opening_len(kind: Bracketed) -> int {
    match kind {
        Bracketed::Image => 2,
        Bracketed::Link => 1,
    }
}

/// The segment of the markup of the given kind that stands at the given
/// positions of `s`.
pub open spec fn markup_segment(s: Seq<char>, kind: Bracketed, at: (int, int, int)) -> InlineSegment {
    let shown = s.subrange(at.0 + opening_len(kind), at.1);
    let url = s.subrange(at.1 + 2, at.2);
    match kind {
        Bracketed::Image => InlineSegment::Image { alt_text: shown, url },
        Bracketed::Link => InlineSegment::Link { url, text: shown },
    }
}

/// The segments of the piece `s` with the word mask `word`, when markups of
/// the given kind are looked for: the segments of the text before the
/// leftmost markup, the markup's own segment, and the segments of what
/// follows it. The text between images is looked through for links, and the
/// text between links for emphasis.
pub open spec fn marked_segments(s: Seq<char>, word: Seq<bool>, kind: Bracketed) -> Seq<
    InlineSegment,
>
    decreases s.len(), 2 * opening_len(kind) - 1,
{
    match markup_of(s, kind) {
        Some(at) => if 0 <= at.0 <= at.2 < s.len() {
            between_segments(s.subrange(0, at.0), word.subrange(0, at.0), kind) + seq![
                markup_segment(s, kind, at),
            ] + marked_segments(
                s.subrange(at.2 + 1, s.len() as int),
                word.subrange(at.2 + 1, s.len() as int),
                kind,
            )
        } else {
            Seq::empty()
        },
        None => between_segments(s, word, kind),
    }
}

/// The segments of a stretch of text that holds no markup of the given kind.
pub open spec fn between_segments(s: Seq<char>, word: Seq<bool>, kind: Bracketed) -> Seq<
    InlineSegment,
>
    decreases s.len(), 2 * opening_len(kind) - 2,
{
    match kind {
        Bracketed::Image => marked_segments(s, word, Bracketed::Link),
        Bracketed::Link => emphasis_segments(s, word),
    }
}

/// The inline segments of the text `s` with the word mask `word`.
pub open spec fn inline_segments(s: Seq<char>, word: Seq<bool>) -> Seq<InlineSegment> {
    marked_segments(s, word, Bracketed::Image)
}

/// The piece `s` with its markup syntax removed, when markups of the given
/// kind are looked for: of a markup, what it shows is kept, and its brackets
/// and its address are dropped.
pub open spec fn marked_text(s: Seq<char>, word: Seq<bool>, kind: Bracketed) -> Seq<char>
    decreases s.len(), 2 * opening_len(kind) - 1,
{
    match markup_of(s, kind) {
        Some(at) => if 0 <= at.0 <= at.2 < s.len() {
            between_text(s.subrange(0, at.0), word.subrange(0, at.0), kind) + s.subrange(
                at.0 + opening_len(kind),
                at.1,
            ) + marked_text(
                s.subrange(at.2 + 1, s.len() as int),
                word.subrange(at.2 + 1, s.len() as int),
                kind,
            )
        } else {
            Seq::empty()
        },
        None => between_text(s, word, kind),
    }
}

/// A stretch of text that holds no markup of the given kind, with its markup
/// syntax removed.
pub open spec fn between_text(s: Seq<char>, word: Seq<bool>, kind: Bracketed) -> Seq<char>
    decreases s.len(), 2 * opening_len(kind) - 2,
{
    match kind {
        Bracketed::Image => marked_text(s, word, Bracketed::Link),
        Bracketed::Link => emphasis_text(s, word),
    }
}

/// The text `s` with its markup syntax removed.
pub open spec fn inline_text(s: Seq<char>, word: Seq<bool>) -> Seq<char> {
    marked_text(s, word, Bracketed::Image)
}

/// Between two images the text is looked through for links, and between two
/// links for emphasis.
proof fn lemma_between(s: Seq<char>, word: Seq<bool>)
    ensures
        between_segments(s, word, Bracketed::Image) == marked_segments(s, word, Bracketed::Link),
        between_segments(s, word, Bracketed::Link) == emphasis_segments(s, word),
        between_text(s, word, Bracketed::Image) == marked_text(s, word, Bracketed::Link),
        between_text(s, word, Bracketed::Link) == emphasis_text(s, word),
{
}

/// What `marked_segments` and `marked_text` are where there is a markup and
/// where there is none.
proof fn lemma_marked(s: Seq<char>, word: Seq<bool>, kind: Bracketed)
    ensures
        markup_of(s, kind) is None ==> marked_segments(s, word, kind) == between_segments(
            s,
            word,
            kind,
        ) && marked_text(s, word, kind) == between_text(s, word, kind),
        markup_of(s, kind) matches Some(at) ==> 0 <= at.0 <= at.2 < s.len() && marked_segments(
            s,
            word,
            kind,
        ) == between_segments(s.subrange(0, at.0), word.subrange(0, at.0), kind) + seq![
            markup_segment(s, kind, at),
        ] + marked_segments(
            s.subrange(at.2 + 1, s.len() as int),
            word.subrange(at.2 + 1, s.len() as int),
            kind,
        ) && marked_text(s, word, kind) == between_text(
            s.subrange(0, at.0),
            word.subrange(0, at.0),
            kind,
        ) + s.subrange(at.0 + opening_len(kind), at.1) + marked_text(
            s.subrange(at.2 + 1, s.len() as int),
            word.subrange(at.2 + 1, s.len() as int),
            kind,
        ),
{
}

/// The segments of a piece show the piece with its markup syntax removed,
/// and nothing else.
pub proof fn lemma_marked_segments_keep_text(s: Seq<char>, word: Seq<bool>, kind: Bracketed)
    requires
        word.len() == s.len(),
    ensures
        visible_text(marked_segments(s, word, kind)) == marked_text(s, word, kind),
        visible_text(between_segments(s, word, kind)) == between_text(s, word, kind),
    decreases s.len(), opening_len(kind),
{
    lemma_between(s, word);
    lemma_marked(s, word, kind);
    match kind {
        Bracketed::Image => {
            lemma_marked_segments_keep_text(s, word, Bracketed::Link);
        },
        Bracketed::Link => {
            lemma_emphasis_keeps_text(s, word);
        },
    }
    match markup_of(s, kind) {
        Some(at) => {
            let before = s.subrange(0, at.0);
            let before_word = word.subrange(0, at.0);
            let after = s.subrange(at.2 + 1, s.len() as int);
            let after_word = word.subrange(at.2 + 1, s.len() as int);
            let head = between_segments(before, before_word, kind);
            let segment = markup_segment(s, kind, at);
            let tail = marked_segments(after, after_word, kind);
            lemma_between(before, before_word);
            match kind {
                Bracketed::Image => {
                    lemma_marked_segments_keep_text(before, before_word, Bracketed::Link);
                },
                Bracketed::Link => {
                    lemma_emphasis_keeps_text(before, before_word);
                },
            }
            lemma_marked_segments_keep_text(after, after_word, kind);
            lemma_visible_text_one(segment);
            lemma_visible_text_add(head, seq![segment]);
            lemma_visible_text_add(head + seq![segment], tail);
        },
        None => {},
    }
}

/// The inline segments of a text show the text with its markup syntax
/// removed.
pub proof fn lemma_inline_segments_keep_text(s: Seq<char>, word: Seq<bool>)
    requires
        word.len() == s.len(),
    ensures
        visible_text(inline_segments(s, word)) == inline_text(s, word),
{
    lemma_marked_segments_keep_text(s, word, Bracketed::Image);
}

/// What remains of the text before a markup, then what the markup shows,
/// then what remains of the text after the markup, remains of the whole.
proof fn lemma_remains_around(
    s: Seq<char>,
    head: Seq<char>,
    tail: Seq<char>,
    open: int,
    from: int,
    to: int,
    close: int,
)
    requires
        0 <= open <= from <= to <= close < s.len(),
        remains_of(head, s.subrange(0, open)),
        remains_of(tail, s.subrange(close + 1, s.len() as int)),
    ensures
        remains_of(head + s.subrange(from, to) + tail, s),
{
    let before = s.subrange(0, open);
    let middle = s.subrange(open, close + 1);
    let after = s.subrange(close + 1, s.len() as int);
    let shown = s.subrange(from, to);
    lemma_remains_all_or_nothing(shown);
    assert(shown =~= middle.subrange(from - open, to - open));
    lemma_remains_of_stretch(shown, middle, from - open, to - open);
    lemma_remains_add(head, before, shown, middle);
    lemma_remains_add(head + shown, before + middle, tail, after);
    assert(before + middle + after =~= s);
}

/// Removing the markup syntax adds nothing and moves nothing: what is left
/// is what remains of the piece when some of its characters are taken out.
pub proof fn lemma_marked_text_remains(s: Seq<char>, word: Seq<bool>, kind: Bracketed)
    requires
        word.len() == s.len(),
    ensures
        remains_of(marked_text(s, word, kind), s),
        remains_of(between_text(s, word, kind), s),
    decreases s.len(), opening_len(kind),
{
    lemma_between(s, word);
    lemma_marked(s, word, kind);
    match kind {
        Bracketed::Image => {
            lemma_marked_text_remains(s, word, Bracketed::Link);
        },
        Bracketed::Link => {
            lemma_emphasis_text_remains(s, word);
        },
    }
    match markup_of(s, kind) {
        Some(at) => {
            let n = s.len() as int;
            let before = s.subrange(0, at.0);
            let before_word = word.subrange(0, at.0);
            let after = s.subrange(at.2 + 1, n);
            let after_word = word.subrange(at.2 + 1, n);
            assert(at.0 + opening_len(kind) <= at.1 <= at.2);
            lemma_between(before, before_word);
            match kind {
                Bracketed::Image => {
                    lemma_marked_text_remains(before, before_word, Bracketed::Link);
                },
                Bracketed::Link => {
                    lemma_emphasis_text_remains(before, before_word);
                },
            }
            lemma_marked_text_remains(after, after_word, kind);
            lemma_remains_around(
                s,
                between_text(before, before_word, kind),
                marked_text(after, after_word, kind),
                at.0,
                at.0 + opening_len(kind),
                at.1,
                at.2,
            );
        },
        None => {},
    }
}

/// The word mask is read for underscores only: a piece without an underscore
/// has the same segments and the same text under any two masks.
pub proof fn lemma_marked_mask_serves_underscores(
    s: Seq<char>,
    first: Seq<bool>,
    second: Seq<bool>,
    kind: Bracketed,
)
    requires
        has_no_underscore(s),
    ensures
        marked_segments(s, first, kind) == marked_segments(s, second, kind),
        between_segments(s, first, kind) == between_segments(s, second, kind),
        marked_text(s, first, kind) == marked_text(s, second, kind),
        between_text(s, first, kind) == between_text(s, second, kind),
    decreases s.len(), opening_len(kind),
{
    lemma_between(s, first);
    lemma_between(s, second);
    lemma_marked(s, first, kind);
    lemma_marked(s, second, kind);
    match kind {
        Bracketed::Image => {
            lemma_marked_mask_serves_underscores(s, first, second, Bracketed::Link);
        },
        Bracketed::Link => {
            lemma_mask_serves_underscores(s, first, second);
        },
    }
    match markup_of(s, kind) {
        Some(at) => {
            let n = s.len() as int;
            let before = s.subrange(0, at.0);
            let after = s.subrange(at.2 + 1, n);
            assert(has_no_underscore(before)) by {
                assert forall|i: int| 0 <= i < before.len() implies #[trigger] before[i] != '_' by {
                    assert(before[i] == s[i]);
                }
            }
            assert(has_no_underscore(after)) by {
                assert forall|i: int| 0 <= i < after.len() implies #[trigger] after[i] != '_' by {
                    assert(after[i] == s[at.2 + 1 + i]);
                }
            }
            lemma_between(before, first.subrange(0, at.0));
            lemma_between(before, second.subrange(0, at.0));
            match kind {
                Bracketed::Image => {
                    lemma_marked_mask_serves_underscores(
                        before,
                        first.subrange(0, at.0),
                        second.subrange(0, at.0),
                        Bracketed::Link,
                    );
                },
                Bracketed::Link => {
                    lemma_mask_serves_underscores(
                        before,
                        first.subrange(0, at.0),
                        second.subrange(0, at.0),
                    );
                },
            }
            lemma_marked_mask_serves_underscores(
                after,
                first.subrange(at.2 + 1, n),
                second.subrange(at.2 + 1, n),
                kind,
            );
        },
        None => {},
    }
}

/// A text that holds no `[` and no delimiter character is one run of plain
/// text: nothing of it is taken for markup.
pub proof fn lemma_text_without_markup(s: Seq<char>, word: Seq<bool>)
    requires
        has_no_delimiter(s),
        forall|i: int| 0 <= i < s.len() ==> s[i] != '[',
    ensures
        inline_segments(s, word) == run_segment(s, MarkdownModifers::plain()),
        inline_text(s, word) == s,
{
    lemma_find_two(s, 0, '!', '[');
    lemma_run_end(s, 0, CharClass::Except('['));
    let n = s.len() as int;
    assert(find_two(s, 0, '!', '[') == n);
    assert(run_end(s, 0, CharClass::Except('[')) == n);
    assert(image_markup(s) is None);
    assert(link_markup(s) is None);
    lemma_between(s, word);
    lemma_marked(s, word, Bracketed::Image);
    lemma_marked(s, word, Bracketed::Link);
    lemma_text_without_delimiters(s, word);
}

/// Appends to `out` the segments of a piece in which links are looked for.
pub fn append_links(out: &mut Vec<TextImage>, s: &[char], word: &[bool])
    requires
        word.len() == s.len(),
    ensures
        views(final(out)@) == views(old(out)@) + marked_segments(s@, word@, Bracketed::Link),
{
    let n: usize = s.len();
    let ghost before = views(out@);
    let ghost all = marked_segments(s@, word@, Bracketed::Link);
    let mut pos: usize = 0;
    assert(s@.subrange(0, n as int) =~= s@);
    assert(word@.subrange(0, n as int) =~= word@);
    loop
        invariant_except_break
            views(out@) + marked_segments(
                s@.subrange(pos as int, n as int),
                word@.subrange(pos as int, n as int),
                Bracketed::Link,
            ) == before + all,
        invariant
            n == s.len(),
            word.len() == n,
            pos <= n,
        ensures
            views(out@) == before + all,
        decreases n - pos,
    {
        let rest = slice_subrange(s, pos, n);
        let rest_word = slice_subrange(word, pos, n);
        let ghost so_far = views(out@);
        proof {
            lemma_between(rest@, rest_word@);
            lemma_marked(rest@, rest_word@, Bracketed::Link);
        }
        match find_link_markup(rest) {
            None => {
                append_emphasis(out, rest, rest_word);
                break ;
            },
            Some((open, mid, close)) => {
                let ghost at = (open as int, mid as int, close as int);
                let ghost head = emphasis_segments(
                    rest@.subrange(0, open as int),
                    rest_word@.subrange(0, open as int),
                );
                let ghost tail = marked_segments(
                    rest@.subrange(close + 1, rest@.len() as int),
                    rest_word@.subrange(close + 1, rest@.len() as int),
                    Bracketed::Link,
                );
                proof {
                    lemma_between(rest@.subrange(0, open as int), rest_word@.subrange(0, open as int));
                }
                append_emphasis(out, slice_subrange(rest, 0, open), slice_subrange(rest_word, 0, open));
                let segment = TextImage::Link(
                    LinkData {
                        url: string_of(rest, mid + 2, close),
                        text: string_of(rest, open + 1, mid),
                    },
                );
                proof {
                    lemma_views_push(out@, segment);
                    assert(segment@ == markup_segment(rest@, Bracketed::Link, at));
                }
                out.push(segment);
                pos = pos + close + 1;
                proof {
                    assert(rest@.subrange(close + 1, rest@.len() as int) =~= s@.subrange(
                        pos as int,
                        n as int,
                    ));
                    assert(rest_word@.subrange(close + 1, rest@.len() as int) =~= word@.subrange(
                        pos as int,
                        n as int,
                    ));
                    assert(views(out@) + tail =~= so_far + (head + seq![segment@] + tail));
                }
            },
        }
    }
}

/// Appends to `out` the inline segments of the text `s`.
pub fn append_inline(out: &mut Vec<TextImage>, s: &[char], word: &[bool])
    requires
        word.len() == s.len(),
    ensures
        views(final(out)@) == views(old(out)@) + inline_segments(s@, word@),
{
    let n: usize = s.len();
    let ghost before = views(out@);
    let ghost all = marked_segments(s@, word@, Bracketed::Image);
    let mut pos: usize = 0;
    assert(s@.subrange(0, n as int) =~= s@);
    assert(word@.subrange(0, n as int) =~= word@);
    loop
        invariant_except_break
            views(out@) + marked_segments(
                s@.subrange(pos as int, n as int),
                word@.subrange(pos as int, n as int),
                Bracketed::Image,
            ) == before + all,
        invariant
            n == s.len(),
            word.len() == n,
            pos <= n,
        ensures
            views(out@) == before + all,
        decreases n - pos,
    {
        let rest = slice_subrange(s, pos, n);
        let rest_word = slice_subrange(word, pos, n);
        let ghost so_far = views(out@);
        proof {
            lemma_between(rest@, rest_word@);
            lemma_marked(rest@, rest_word@, Bracketed::Image);
        }
        match find_image_markup(rest) {
            None => {
                append_links(out, rest, rest_word);
                break ;
            },
            Some((open, mid, close)) => {
                let ghost at = (open as int, mid as int, close as int);
                let ghost head = marked_segments(
                    rest@.subrange(0, open as int),
                    rest_word@.subrange(0, open as int),
                    Bracketed::Link,
                );
                let ghost tail = marked_segments(
                    rest@.subrange(close + 1, rest@.len() as int),
                    rest_word@.subrange(close + 1, rest@.len() as int),
                    Bracketed::Image,
                );
                proof {
                    lemma_between(rest@.subrange(0, open as int), rest_word@.subrange(0, open as int));
                }
                append_links(out, slice_subrange(rest, 0, open), slice_subrange(rest_word, 0, open));
                let segment = TextImage::Image(
                    ImageData {
                        alt_text: string_of(rest, open + 2, mid),
                        image_url: string_of(rest, mid + 2, close),
                    },
                );
                proof {
                    lemma_views_push(out@, segment);
                    assert(segment@ == markup_segment(rest@, Bracketed::Image, at));
                }
                out.push(segment);
                pos = pos + close + 1;
                proof {
                    assert(rest@.subrange(close + 1, rest@.len() as int) =~= s@.subrange(
                        pos as int,
                        n as int,
                    ));
                    assert(rest_word@.subrange(close + 1, rest@.len() as int) =~= word@.subrange(
                        pos as int,
                        n as int,
                    ));
                    assert(views(out@) + tail =~= so_far + (head + seq![segment@] + tail));
                }
            },
        }
    }
}

} // verus!
