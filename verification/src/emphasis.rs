//! Emphasis: the paired modifier delimiters in a piece of plain text, and the
//! runs of text that they set apart.
//!
//! The delimiters are `**` and `__` for bold, `*` and `_` for italic, and the
//! backtick for code. A delimiter counts only where it has a partner of its
//! own kind in the same piece; one without a partner is text. An underscore
//! opens only at the start of a word and closes only at the end of one, so an
//! underscore inside a word is text too.

use crate::model::{
    lemma_visible_text_add, lemma_visible_text_one, visible_text, InlineSegment, MarkdownModifers,
    TextData, TextImage,
};
use crate::text::{
    chars_of, lemma_remains_add, lemma_remains_all_or_nothing, lemma_views_push, remains_of,
    run_end, scan_run, views, CharClass,
};
use crate::words::{has_no_underscore, needed_mask, needed_word_mask, word_mask_of};
use vstd::prelude::*;

verus! {

/// The four delimiters of bold and italic.
#[derive(Clone, Copy, Debug, PartialEq, Eq, Structural)]
pub enum Delimiter {
    BoldStar,
    BoldUnderscore,
    ItalicStar,
    ItalicUnderscore,
}

/// What stands at a position of the text.
#[derive(Clone, Copy, Debug, PartialEq, Eq, Structural)]
pub enum Token {
    /// A backtick.
    Backtick,
    /// One of the delimiters of bold and italic.
    Mark(Delimiter),
    /// Any other character, or a character inside a code span.
    Literal,
}

/// Which delimiters are open at a position of the text.
#[derive(Clone, Copy, Debug, PartialEq, Eq, Structural)]
pub struct Emphasis {
    pub code: bool,
    pub bold_star: bool,
    pub bold_underscore: bool,
    pub italic_star: bool,
    pub italic_underscore: bool,
}

impl Emphasis {
    /// No delimiter open.
    pub open spec fn none() -> Emphasis {
        Emphasis {
            code: false,
            bold_star: false,
            bold_underscore: false,
            italic_star: false,
            italic_underscore: false,
        }
    }

    /// Whether `d` is open.
    pub open spec fn is_open(self, d: Delimiter) -> bool {
        match d {
            Delimiter::BoldStar => self.bold_star,
            Delimiter::BoldUnderscore => self.bold_underscore,
            Delimiter::ItalicStar => self.italic_star,
            Delimiter::ItalicUnderscore => self.italic_underscore,
        }
    }

    /// The same, with `d` opened if it was closed and closed if it was open.
    pub open spec fn toggled(self, d: Delimiter) -> Emphasis {
        match d {
            Delimiter::BoldStar => Emphasis { bold_star: !self.bold_star, ..self },
            Delimiter::BoldUnderscore => Emphasis { bold_underscore: !self.bold_underscore, ..self },
            Delimiter::ItalicStar => Emphasis { italic_star: !self.italic_star, ..self },
            Delimiter::ItalicUnderscore => Emphasis {
                italic_underscore: !self.italic_underscore,
                ..self
            },
        }
    }

    /// The modifiers of text that stands under these open delimiters.
    pub open spec fn modifiers(self) -> MarkdownModifers {
        MarkdownModifers {
            bold: self.bold_star || self.bold_underscore,
            italic: self.italic_star || self.italic_underscore,
            code: self.code,
        }
    }

    fn start() -> (e: Emphasis)
        ensures
            e == Emphasis::none(),
    {
        Emphasis {
            code: false,
            bold_star: false,
            bold_underscore: false,
            italic_star: false,
            italic_underscore: false,
        }
    }

    fn open_now(&self, d: Delimiter) -> (b: bool)
        ensures
            b == self.is_open(d),
    {
        match d {
            Delimiter::BoldStar => self.bold_star,
            Delimiter::BoldUnderscore => self.bold_underscore,
            Delimiter::ItalicStar => self.italic_star,
            Delimiter::ItalicUnderscore => self.italic_underscore,
        }
    }

    fn toggle(&self, d: Delimiter) -> (e: Emphasis)
        ensures
            e == self.toggled(d),
    {
        let mut e = *self;
        match d {
            Delimiter::BoldStar => {
                e.bold_star = !self.bold_star;
            },
            Delimiter::BoldUnderscore => {
                e.bold_underscore = !self.bold_underscore;
            },
            Delimiter::ItalicStar => {
                e.italic_star = !self.italic_star;
            },
            Delimiter::ItalicUnderscore => {
                e.italic_underscore = !self.italic_underscore;
            },
        }
        e
    }

    fn to_modifiers(&self) -> (m: MarkdownModifers)
        ensures
            m == self.modifiers(),
    {
        MarkdownModifers {
            bold: self.bold_star || self.bold_underscore,
            italic: self.italic_star || self.italic_underscore,
            code: self.code,
        }
    }
}

/// Whether a word boundary stands before position `p` of a text with the
/// word mask `word`: of the characters on its two sides exactly one is a word
/// character, where the start and the end of the text count as none.
pub open spec fn word_boundary(word: Seq<bool>, p: int) -> bool {
    (0 < p <= word.len() && word[p - 1]) != (0 <= p < word.len() && word[p])
}

/// Where the run of underscores that reaches up to position `i` begins.
pub open spec fn underscore_start(s: Seq<char>, i: int) -> int
    decreases i,
{
    if 0 < i <= s.len() && s[i - 1] == '_' {
        underscore_start(s, i - 1)
    } else {
        i
    }
}

/// Whether an underscore stands at `i` in a run of underscores that begins at
/// a word boundary.
pub open spec fn opens_at_boundary(s: Seq<char>, word: Seq<bool>, i: int) -> bool {
    0 <= i < s.len() && s[i] == '_' && word_boundary(word, underscore_start(s, i))
}

/// Whether an underscore stands at `i` in a run of underscores that ends at a
/// word boundary.
pub open spec fn closes_at_boundary(s: Seq<char>, word: Seq<bool>, i: int) -> bool {
    0 <= i < s.len() && s[i] == '_' && word_boundary(word, run_end(s, i, CharClass::Only('_')))
}

/// For each character of a text, whether an underscore there can open a
/// delimiter, and whether it can close one.
pub struct Flanks {
    pub opens: Seq<bool>,
    pub closes: Seq<bool>,
}

/// The flanks of the underscores of `s`: an underscore can open where its run
/// begins at a word boundary, and close where its run ends at one.
pub open spec fn flanks_of(s: Seq<char>, word: Seq<bool>) -> Flanks {
    Flanks {
        opens: Seq::new(s.len(), |i: int| opens_at_boundary(s, word, i)),
        closes: Seq::new(s.len(), |i: int| closes_at_boundary(s, word, i)),
    }
}

/// Whether the delimiter character at `i` can open: a `*` always can.
pub open spec fn can_open(s: Seq<char>, flanks: Flanks, i: int) -> bool {
    s[i] == '*' || flanks.opens[i]
}

/// Whether the delimiter character at `i` can close: a `*` always can.
pub open spec fn can_close(s: Seq<char>, flanks: Flanks, i: int) -> bool {
    s[i] == '*' || flanks.closes[i]
}

/// The token at position `i`, inside a code span or not. Two equal
/// delimiter characters in a row make one bold delimiter. An underscore that
/// can neither open nor close is text.
pub open spec fn token_at(s: Seq<char>, flanks: Flanks, i: int, in_code: bool) -> Token {
    if s[i] == '`' {
        Token::Backtick
    } else if in_code {
        Token::Literal
    } else if s[i] == '*' {
        if i + 1 < s.len() && s[i + 1] == '*' {
            Token::Mark(Delimiter::BoldStar)
        } else {
            Token::Mark(Delimiter::ItalicStar)
        }
    } else if s[i] == '_' && (flanks.opens[i] || flanks.closes[i]) {
        if i + 1 < s.len() && s[i + 1] == '_' {
            Token::Mark(Delimiter::BoldUnderscore)
        } else {
            Token::Mark(Delimiter::ItalicUnderscore)
        }
    } else {
        Token::Literal
    }
}

/// The number of characters that a token takes.
pub open spec fn token_len(t: Token) -> int {
    match t {
        Token::Mark(Delimiter::BoldStar) => 2,
        Token::Mark(Delimiter::BoldUnderscore) => 2,
        _ => 1,
    }
}

/// Whether a backtick stands at `from` or after it.
pub open spec fn has_backtick(s: Seq<char>, from: int) -> bool {
    run_end(s, from, CharClass::Except('`')) < s.len()
}

/// Whether the text after the token `t` at `i` is inside a code span. A
/// backtick closes the span it stands in, and opens one where another
/// backtick follows.
pub open spec fn code_after(s: Seq<char>, i: int, in_code: bool, t: Token) -> bool {
    match t {
        Token::Backtick => !in_code && has_backtick(s, i + 1),
        _ => in_code,
    }
}

/// The number of tokens `d` from position `i` on that can close.
pub open spec fn closers_from(
    s: Seq<char>,
    flanks: Flanks,
    i: int,
    in_code: bool,
    d: Delimiter,
) -> nat
    decreases s.len() - i,
{
    if i < 0 || i >= s.len() {
        0
    } else {
        let t = token_at(s, flanks, i, in_code);
        let rest = if i + token_len(t) <= s.len() {
            closers_from(s, flanks, i + token_len(t), code_after(s, i, in_code, t), d)
        } else {
            0
        };
        if t == Token::Mark(d) && can_close(s, flanks, i) {
            1 + rest
        } else {
            rest
        }
    }
}

/// The count from a position is one more than the count after its token where
/// the token is a `d` that can close, and the same where it is not.
pub proof fn lemma_closers_step(s: Seq<char>, flanks: Flanks, i: int, in_code: bool, d: Delimiter)
    requires
        0 <= i < s.len(),
    ensures
        ({
            let t = token_at(s, flanks, i, in_code);
            &&& i + token_len(t) <= s.len()
            &&& closers_from(s, flanks, i, in_code, d) == closers_from(
                s,
                flanks,
                i + token_len(t),
                code_after(s, i, in_code, t),
                d,
            ) + if t == Token::Mark(d) && can_close(s, flanks, i) {
                1nat
            } else {
                0nat
            }
        }),
{
}

/// Whether the token `t` at `i` is markup: a backtick that closes or opens a
/// code span, a delimiter that can close what is open, or a delimiter that
/// can open and has after it a partner that can close.
pub open spec fn is_markup(s: Seq<char>, flanks: Flanks, i: int, e: Emphasis, t: Token) -> bool {
    match t {
        Token::Backtick => e.code || has_backtick(s, i + 1),
        Token::Mark(d) => if e.is_open(d) {
            can_close(s, flanks, i)
        } else {
            can_open(s, flanks, i) && closers_from(s, flanks, i + token_len(t), e.code, d) > 0
        },
        Token::Literal => false,
    }
}

/// The open delimiters after the token `t` at `i`.
pub open spec fn after_token(
    s: Seq<char>,
    flanks: Flanks,
    i: int,
    e: Emphasis,
    t: Token,
) -> Emphasis {
    if !is_markup(s, flanks, i, e, t) {
        e
    } else {
        match t {
            Token::Backtick => Emphasis { code: !e.code, ..e },
            Token::Mark(d) => e.toggled(d),
            Token::Literal => e,
        }
    }
}

/// One label for each character from position `i` on: `None` for a character
/// of markup, and for a character of text the modifiers it stands under.
pub open spec fn labels_from(s: Seq<char>, flanks: Flanks, i: int, e: Emphasis) -> Seq<
    Option<MarkdownModifers>,
>
    decreases s.len() - i,
{
    if i < 0 || i >= s.len() {
        Seq::empty()
    } else {
        let t = token_at(s, flanks, i, e.code);
        let label = if is_markup(s, flanks, i, e, t) {
            None
        } else {
            Some(e.modifiers())
        };
        if token_len(t) == 2 && i + 2 <= s.len() {
            seq![label, label] + labels_from(s, flanks, i + 2, after_token(s, flanks, i, e, t))
        } else {
            seq![label] + labels_from(s, flanks, i + 1, after_token(s, flanks, i, e, t))
        }
    }
}

/// The labels of the characters of a piece of plain text with the word mask
/// `word`.
pub open spec fn labels_of(s: Seq<char>, word: Seq<bool>) -> Seq<Option<MarkdownModifers>> {
    labels_from(s, flanks_of(s, word), 0, Emphasis::none())
}

/// The segment of a run of text: none for an empty run.
pub open spec fn run_segment(run: Seq<char>, modifiers: MarkdownModifers) -> Seq<InlineSegment> {
    if run.len() == 0 {
        Seq::empty()
    } else {
        seq![InlineSegment::Text { content: run, modifiers }]
    }
}

/// The text segments from position `i` on, when `run` holds the text
/// gathered so far under `modifiers`. Text joins the run while its modifiers
/// are those of the run; markup is left out and does not end a run.
pub open spec fn runs_from(
    s: Seq<char>,
    labels: Seq<Option<MarkdownModifers>>,
    i: int,
    run: Seq<char>,
    modifiers: MarkdownModifers,
) -> Seq<InlineSegment>
    decreases s.len() - i,
{
    if i < 0 || i >= s.len() || i >= labels.len() {
        run_segment(run, modifiers)
    } else {
        match labels[i] {
            None => runs_from(s, labels, i + 1, run, modifiers),
            Some(m) => if run.len() == 0 || m == modifiers {
                runs_from(s, labels, i + 1, run.push(s[i]), m)
            } else {
                run_segment(run, modifiers) + runs_from(s, labels, i + 1, seq![s[i]], m)
            },
        }
    }
}

/// The characters from position `i` on that are text and not markup.
pub open spec fn text_from(s: Seq<char>, labels: Seq<Option<MarkdownModifers>>, i: int) -> Seq<char>
    decreases s.len() - i,
{
    if i < 0 || i >= s.len() || i >= labels.len() {
        Seq::empty()
    } else if labels[i] is Some {
        seq![s[i]] + text_from(s, labels, i + 1)
    } else {
        text_from(s, labels, i + 1)
    }
}

/// The text segments of a piece of plain text: its maximal runs of text under
/// one combination of modifiers.
pub open spec fn emphasis_segments(s: Seq<char>, word: Seq<bool>) -> Seq<InlineSegment> {
    runs_from(s, labels_of(s, word), 0, Seq::empty(), MarkdownModifers::plain())
}

/// A piece of plain text without its delimiters.
pub open spec fn emphasis_text(s: Seq<char>, word: Seq<bool>) -> Seq<char> {
    text_from(s, labels_of(s, word), 0)
}

/// There is one label for each character.
pub proof fn lemma_labels_len(s: Seq<char>, flanks: Flanks, i: int, e: Emphasis)
    requires
        0 <= i <= s.len(),
    ensures
        labels_from(s, flanks, i, e).len() == s.len() - i,
    decreases s.len() - i,
{
    if i < s.len() {
        let t = token_at(s, flanks, i, e.code);
        let next = after_token(s, flanks, i, e, t);
        if token_len(t) == 2 && i + 2 <= s.len() {
            lemma_labels_len(s, flanks, i + 2, next);
        } else {
            lemma_labels_len(s, flanks, i + 1, next);
        }
    }
}

/// Only delimiter characters are left out of a piece of plain text: a
/// character that is no `*`, `_` or backtick is text.
pub proof fn lemma_only_delimiters_are_markup(s: Seq<char>, word: Seq<bool>, j: int)
    requires
        0 <= j < s.len(),
        labels_of(s, word)[j] is None,
    ensures
        s[j] == '*' || s[j] == '_' || s[j] == '`',
{
    lemma_markup_is_delimiter(s, flanks_of(s, word), 0, Emphasis::none(), j);
}

proof fn lemma_markup_is_delimiter(s: Seq<char>, flanks: Flanks, i: int, e: Emphasis, j: int)
    requires
        0 <= i <= s.len(),
        0 <= j < s.len() - i,
        labels_from(s, flanks, i, e)[j] is None,
    ensures
        s[i + j] == '*' || s[i + j] == '_' || s[i + j] == '`',
    decreases s.len() - i,
{
    let t = token_at(s, flanks, i, e.code);
    let next = after_token(s, flanks, i, e, t);
    if token_len(t) == 2 && i + 2 <= s.len() {
        lemma_labels_len(s, flanks, i + 2, next);
        if j >= 2 {
            lemma_markup_is_delimiter(s, flanks, i + 2, next, j - 2);
        }
    } else {
        lemma_labels_len(s, flanks, i + 1, next);
        if j >= 1 {
            lemma_markup_is_delimiter(s, flanks, i + 1, next, j - 1);
        }
    }
}

/// Gathering text into runs loses nothing: the text that the segments show
/// is the run gathered so far, followed by the text still to come.
pub proof fn lemma_runs_keep_text(
    s: Seq<char>,
    labels: Seq<Option<MarkdownModifers>>,
    i: int,
    run: Seq<char>,
    modifiers: MarkdownModifers,
)
    requires
        0 <= i,
    ensures
        visible_text(runs_from(s, labels, i, run, modifiers)) == run + text_from(s, labels, i),
    decreases s.len() - i,
{
    lemma_visible_text_one(InlineSegment::Text { content: run, modifiers });
    if i >= s.len() || i >= labels.len() {
        assert(run + Seq::<char>::empty() =~= run);
    } else {
        match labels[i] {
            None => {
                lemma_runs_keep_text(s, labels, i + 1, run, modifiers);
            },
            Some(m) => {
                if run.len() == 0 || m == modifiers {
                    lemma_runs_keep_text(s, labels, i + 1, run.push(s[i]), m);
                    assert(run.push(s[i]) + text_from(s, labels, i + 1) =~= run + (seq![s[i]]
                        + text_from(s, labels, i + 1)));
                } else {
                    lemma_runs_keep_text(s, labels, i + 1, seq![s[i]], m);
                    lemma_visible_text_add(
                        run_segment(run, modifiers),
                        runs_from(s, labels, i + 1, seq![s[i]], m),
                    );
                }
            },
        }
    }
}

/// The segments of a piece of plain text show the piece without its
/// delimiters.
pub proof fn lemma_emphasis_keeps_text(s: Seq<char>, word: Seq<bool>)
    ensures
        visible_text(emphasis_segments(s, word)) == emphasis_text(s, word),
{
    lemma_runs_keep_text(s, labels_of(s, word), 0, Seq::empty(), MarkdownModifers::plain());
    assert(Seq::<char>::empty() + emphasis_text(s, word) =~= emphasis_text(s, word));
}

/// The delimiters that are open after the last character, when `e` are those
/// open at position `i`.
pub open spec fn emphasis_after(s: Seq<char>, flanks: Flanks, i: int, e: Emphasis) -> Emphasis
    decreases s.len() - i,
{
    if i < 0 || i >= s.len() {
        e
    } else {
        let t = token_at(s, flanks, i, e.code);
        if token_len(t) == 2 && i + 2 <= s.len() {
            emphasis_after(s, flanks, i + 2, after_token(s, flanks, i, e, t))
        } else {
            emphasis_after(s, flanks, i + 1, after_token(s, flanks, i, e, t))
        }
    }
}

/// Whether each delimiter that is open at position `i` has a partner from
/// there on: a backtick for an open code span, and for any other open
/// delimiter a token of its own that can close.
pub open spec fn has_partners(s: Seq<char>, flanks: Flanks, i: int, e: Emphasis) -> bool {
    &&& e.code ==> has_backtick(s, i)
    &&& forall|d: Delimiter| e.is_open(d) ==> #[trigger] closers_from(s, flanks, i, e.code, d) > 0
}

proof fn lemma_partners_step(s: Seq<char>, flanks: Flanks, i: int, e: Emphasis)
    requires
        0 <= i < s.len(),
        has_partners(s, flanks, i, e),
    ensures
        ({
            let t = token_at(s, flanks, i, e.code);
            let next = after_token(s, flanks, i, e, t);
            &&& next.code == code_after(s, i, e.code, t)
            &&& has_partners(s, flanks, i + token_len(t), next)
        }),
{
    let t = token_at(s, flanks, i, e.code);
    let next = after_token(s, flanks, i, e, t);
    assert(run_end(s, i, CharClass::Except('`')) == if s[i] != '`' {
        run_end(s, i + 1, CharClass::Except('`'))
    } else {
        i
    });
    assert forall|d: Delimiter| next.is_open(d) implies #[trigger] closers_from(
        s,
        flanks,
        i + token_len(t),
        next.code,
        d,
    ) > 0 by {
        lemma_closers_step(s, flanks, i, e.code, d);
        if e.is_open(d) {
            assert(closers_from(s, flanks, i, e.code, d) > 0);
        }
    }
}

proof fn lemma_partners_close(s: Seq<char>, flanks: Flanks, i: int, e: Emphasis)
    requires
        0 <= i <= s.len(),
        has_partners(s, flanks, i, e),
    ensures
        emphasis_after(s, flanks, i, e) == Emphasis::none(),
    decreases s.len() - i,
{
    if i < s.len() {
        let t = token_at(s, flanks, i, e.code);
        lemma_partners_step(s, flanks, i, e);
        lemma_partners_close(s, flanks, i + token_len(t), after_token(s, flanks, i, e, t));
    } else {
        assert(!e.code);
        assert forall|d: Delimiter| !e.is_open(d) by {
            assert(closers_from(s, flanks, i, e.code, d) == 0);
        }
        assert(!e.is_open(Delimiter::BoldStar));
        assert(!e.is_open(Delimiter::BoldUnderscore));
        assert(!e.is_open(Delimiter::ItalicStar));
        assert(!e.is_open(Delimiter::ItalicUnderscore));
    }
}

/// Every delimiter that is taken for markup has its partner: at the end of a
/// piece of plain text no delimiter is open. A delimiter without a partner is
/// never markup, so it stays in the text.
pub proof fn lemma_emphasis_is_balanced(s: Seq<char>, word: Seq<bool>)
    ensures
        emphasis_after(s, flanks_of(s, word), 0, Emphasis::none()) == Emphasis::none(),
{
    lemma_partners_close(s, flanks_of(s, word), 0, Emphasis::none());
}

/// The characters that are text are characters of the piece, in their order.
pub proof fn lemma_text_from_remains(s: Seq<char>, labels: Seq<Option<MarkdownModifers>>, i: int)
    requires
        0 <= i <= s.len(),
    ensures
        remains_of(text_from(s, labels, i), s.subrange(i, s.len() as int)),
    decreases s.len() - i,
{
    let n = s.len() as int;
    lemma_remains_all_or_nothing(s.subrange(i, n));
    if i < n && i < labels.len() {
        lemma_text_from_remains(s, labels, i + 1);
        lemma_remains_all_or_nothing(seq![s[i]]);
        assert(s.subrange(i, n) =~= seq![s[i]] + s.subrange(i + 1, n));
        if labels[i] is Some {
            lemma_remains_add(seq![s[i]], seq![s[i]], text_from(s, labels, i + 1), s.subrange(i + 1, n));
        } else {
            lemma_remains_add(Seq::empty(), seq![s[i]], text_from(s, labels, i + 1), s.subrange(i + 1, n));
            assert(Seq::<char>::empty() + text_from(s, labels, i + 1) =~= text_from(s, labels, i + 1));
        }
    }
}

/// A piece of plain text without its delimiters is what remains of the piece
/// when some of its characters are taken out.
pub proof fn lemma_emphasis_text_remains(s: Seq<char>, word: Seq<bool>)
    ensures
        remains_of(emphasis_text(s, word), s),
{
    lemma_text_from_remains(s, labels_of(s, word), 0);
    assert(s.subrange(0, s.len() as int) =~= s);
}

/// The word mask is read for underscores only: a piece of plain text without
/// an underscore has the same segments and the same text under any two masks.
pub proof fn lemma_mask_serves_underscores(s: Seq<char>, first: Seq<bool>, second: Seq<bool>)
    requires
        has_no_underscore(s),
    ensures
        emphasis_segments(s, first) == emphasis_segments(s, second),
        emphasis_text(s, first) == emphasis_text(s, second),
{
    assert(flanks_of(s, first).opens =~= flanks_of(s, second).opens);
    assert(flanks_of(s, first).closes =~= flanks_of(s, second).closes);
}

/// A text that holds no `*`, no `_` and no backtick.
pub open spec fn has_no_delimiter(s: Seq<char>) -> bool {
    forall|i: int| 0 <= i < s.len() ==> #[trigger] s[i] != '*' && s[i] != '_' && s[i] != '`'
}

proof fn lemma_labels_without_delimiters(s: Seq<char>, flanks: Flanks, i: int, j: int)
    requires
        has_no_delimiter(s),
        0 <= i <= s.len(),
        0 <= j < s.len() - i,
    ensures
        labels_from(s, flanks, i, Emphasis::none())[j] == Some(MarkdownModifers::plain()),
    decreases s.len() - i,
{
    lemma_labels_len(s, flanks, i + 1, Emphasis::none());
    if j > 0 {
        lemma_labels_without_delimiters(s, flanks, i + 1, j - 1);
    }
}

proof fn lemma_runs_of_one_label(
    s: Seq<char>,
    labels: Seq<Option<MarkdownModifers>>,
    i: int,
    run: Seq<char>,
    modifiers: MarkdownModifers,
)
    requires
        0 <= i <= s.len(),
        labels.len() == s.len(),
        forall|j: int| i <= j < s.len() ==> labels[j] == Some(modifiers),
    ensures
        runs_from(s, labels, i, run, modifiers) == run_segment(
            run + s.subrange(i, s.len() as int),
            modifiers,
        ),
    decreases s.len() - i,
{
    if i < s.len() {
        lemma_runs_of_one_label(s, labels, i + 1, run.push(s[i]), modifiers);
        assert(run.push(s[i]) + s.subrange(i + 1, s.len() as int) =~= run + s.subrange(
            i,
            s.len() as int,
        ));
    } else {
        assert(run + s.subrange(i, s.len() as int) =~= run);
    }
}

/// A text without delimiter characters is one run of plain text, whatever its
/// word mask.
pub proof fn lemma_text_without_delimiters(s: Seq<char>, word: Seq<bool>)
    requires
        has_no_delimiter(s),
    ensures
        emphasis_segments(s, word) == run_segment(s, MarkdownModifers::plain()),
        emphasis_text(s, word) == s,
{
    let labels = labels_of(s, word);
    lemma_labels_len(s, flanks_of(s, word), 0, Emphasis::none());
    assert forall|j: int| 0 <= j < s.len() implies labels[j] == Some(MarkdownModifers::plain()) by {
        lemma_labels_without_delimiters(s, flanks_of(s, word), 0, j);
    }
    lemma_runs_of_one_label(s, labels, 0, Seq::empty(), MarkdownModifers::plain());
    assert(Seq::<char>::empty() + s.subrange(0, s.len() as int) =~= s);
    lemma_emphasis_keeps_text(s, word);
    lemma_visible_text_one(InlineSegment::Text { content: s, modifiers: MarkdownModifers::plain() });
}

/// Tests whether a word boundary stands before position `p`.
fn at_word_boundary(word: &[bool], p: usize) -> (b: bool)
    ensures
        b == word_boundary(word@, p as int),
{
    let before: bool = 0 < p && p <= word.len() && word[p - 1];
    let after: bool = p < word.len() && word[p];
    before != after
}

/// The flanks of the underscores of a text, one mark for each character.
#[derive(Debug)]
pub struct FlankMarks {
    pub opens: Vec<bool>,
    pub closes: Vec<bool>,
}

impl View for FlankMarks {
    type V = Flanks;

    open spec fn view(&self) -> Flanks {
        Flanks { opens: self.opens@, closes: self.closes@ }
    }
}

/// Marks the flanks of the underscores of `s`.
pub fn mark_flanks(s: &[char], word: &[bool]) -> (marks: FlankMarks)
    requires
        word.len() == s.len(),
    ensures
        marks@ == flanks_of(s@, word@),
{
    let n: usize = s.len();
    let mut opens: Vec<bool> = Vec::new();
    let mut closes: Vec<bool> = Vec::new();
    let mut i: usize = 0;
    let mut from_left: bool = false;
    while i < n
        invariant
            n == s.len(),
            i <= n,
            opens.len() == i,
            closes.len() == i,
            i > 0 ==> from_left == opens_at_boundary(s@, word@, i - 1),
            forall|j: int| 0 <= j < i ==> opens[j] == #[trigger] opens_at_boundary(s@, word@, j),
        decreases n - i,
    {
        assert(underscore_start(s@, i as int) == if i > 0 && s[i - 1] == '_' {
            underscore_start(s@, i - 1)
        } else {
            i as int
        });
        if s[i] == '_' {
            if !(i > 0 && s[i - 1] == '_') {
                from_left = at_word_boundary(word, i);
            }
        } else {
            from_left = false;
        }
        assert(from_left == opens_at_boundary(s@, word@, i as int));
        opens.push(from_left);
        closes.push(false);
        i += 1;
    }
    let mut from_right: bool = false;
    while i > 0
        invariant
            n == s.len(),
            i <= n,
            closes.len() == n,
            i < n ==> from_right == closes_at_boundary(s@, word@, i as int),
            forall|j: int| i <= j < n ==> closes[j] == #[trigger] closes_at_boundary(s@, word@, j),
        decreases i,
    {
        i -= 1;
        if s[i] == '_' {
            assert(run_end(s@, i as int, CharClass::Only('_')) == run_end(
                s@,
                i + 1,
                CharClass::Only('_'),
            ));
            if !(i + 1 < n && s[i + 1] == '_') {
                assert(run_end(s@, i + 1, CharClass::Only('_')) == i + 1);
                from_right = at_word_boundary(word, i + 1);
            }
        } else {
            from_right = false;
        }
        assert(from_right == closes_at_boundary(s@, word@, i as int));
        closes.set(i, from_right);
    }
    assert(opens@ =~= flanks_of(s@, word@).opens);
    assert(closes@ =~= flanks_of(s@, word@).closes);
    FlankMarks { opens, closes }
}

/// Reads the token at position `i`: the token, the number of characters it
/// takes, and whether the text after it is inside a code span.
fn read_token(s: &[char], marks: &FlankMarks, i: usize, in_code: bool) -> (r: (Token, usize, bool))
    requires
        i < s.len(),
        marks.opens.len() == s.len(),
        marks.closes.len() == s.len(),
    ensures
        r.0 == token_at(s@, marks@, i as int, in_code),
        r.1 == token_len(r.0),
        i + r.1 <= s.len(),
        r.2 == code_after(s@, i as int, in_code, r.0),
        r.0 is Mark ==> !in_code,
{
    let c: char = s[i];
    if c == '`' {
        let opens: bool = !in_code && scan_run(s, i + 1, CharClass::Except('`')) < s.len();
        (Token::Backtick, 1, opens)
    } else if in_code {
        (Token::Literal, 1, in_code)
    } else if c == '*' {
        if i + 1 < s.len() && s[i + 1] == '*' {
            (Token::Mark(Delimiter::BoldStar), 2, in_code)
        } else {
            (Token::Mark(Delimiter::ItalicStar), 1, in_code)
        }
    } else if c == '_' && (marks.opens[i] || marks.closes[i]) {
        if i + 1 < s.len() && s[i + 1] == '_' {
            (Token::Mark(Delimiter::BoldUnderscore), 2, in_code)
        } else {
            (Token::Mark(Delimiter::ItalicUnderscore), 1, in_code)
        }
    } else {
        (Token::Literal, 1, in_code)
    }
}

/// How many there are of each delimiter.
#[derive(Clone, Copy, Debug)]
pub struct Tally {
    pub bold_star: usize,
    pub bold_underscore: usize,
    pub italic_star: usize,
    pub italic_underscore: usize,
}

impl Tally {
    /// The number counted of `d`.
    pub open spec fn count(self, d: Delimiter) -> nat {
        match d {
            Delimiter::BoldStar => self.bold_star as nat,
            Delimiter::BoldUnderscore => self.bold_underscore as nat,
            Delimiter::ItalicStar => self.italic_star as nat,
            Delimiter::ItalicUnderscore => self.italic_underscore as nat,
        }
    }

    fn zero() -> (t: Tally)
        ensures
            forall|d: Delimiter| t.count(d) == 0,
    {
        Tally { bold_star: 0, bold_underscore: 0, italic_star: 0, italic_underscore: 0 }
    }

    fn get(&self, d: Delimiter) -> (n: usize)
        ensures
            n == self.count(d),
    {
        match d {
            Delimiter::BoldStar => self.bold_star,
            Delimiter::BoldUnderscore => self.bold_underscore,
            Delimiter::ItalicStar => self.italic_star,
            Delimiter::ItalicUnderscore => self.italic_underscore,
        }
    }

    fn bump(&mut self, d: Delimiter)
        requires
            old(self).count(d) < usize::MAX,
        ensures
            final(self).count(d) == old(self).count(d) + 1,
            forall|other: Delimiter| other != d ==> final(self).count(other) == old(self).count(other),
    {
        match d {
            Delimiter::BoldStar => {
                self.bold_star += 1;
            },
            Delimiter::BoldUnderscore => {
                self.bold_underscore += 1;
            },
            Delimiter::ItalicStar => {
                self.italic_star += 1;
            },
            Delimiter::ItalicUnderscore => {
                self.italic_underscore += 1;
            },
        }
    }
}

/// Tests whether the delimiter character at `i` can open.
fn opens_here(s: &[char], marks: &FlankMarks, i: usize) -> (b: bool)
    requires
        i < s.len(),
        marks.opens.len() == s.len(),
    ensures
        b == can_open(s@, marks@, i as int),
{
    s[i] == '*' || marks.opens[i]
}

/// Tests whether the delimiter character at `i` can close.
fn closes_here(s: &[char], marks: &FlankMarks, i: usize) -> (b: bool)
    requires
        i < s.len(),
        marks.closes.len() == s.len(),
    ensures
        b == can_close(s@, marks@, i as int),
{
    s[i] == '*' || marks.closes[i]
}

/// Counts, for each delimiter, its tokens in `s` that can close.
pub fn tally_closers(s: &[char], marks: &FlankMarks) -> (total: Tally)
    requires
        marks.opens.len() == s.len(),
        marks.closes.len() == s.len(),
    ensures
        forall|d: Delimiter| total.count(d) == #[trigger] closers_from(s@, marks@, 0, false, d),
{
    let mut seen = Tally::zero();
    let mut i: usize = 0;
    let mut in_code: bool = false;
    while i < s.len()
        invariant
            i <= s.len(),
            marks.opens.len() == s.len(),
            marks.closes.len() == s.len(),
            forall|d: Delimiter| seen.count(d) <= i,
            forall|d: Delimiter|
                seen.count(d) + #[trigger] closers_from(s@, marks@, i as int, in_code, d)
                    == closers_from(s@, marks@, 0, false, d),
        decreases s.len() - i,
    {
        let (t, len, next_code) = read_token(s, marks, i, in_code);
        let ghost seen_before = seen;
        if let Token::Mark(d) = t {
            if closes_here(s, marks, i) {
                assert(seen.count(d) <= i);
                seen.bump(d);
            }
        }
        assert forall|d: Delimiter|
            seen.count(d) <= i + len && seen.count(d) + #[trigger] closers_from(
                s@,
                marks@,
                i + len,
                next_code,
                d,
            ) == closers_from(s@, marks@, 0, false, d) by {
            lemma_closers_step(s@, marks@, i as int, in_code, d);
            assert(seen_before.count(d) <= i);
        }
        i += len;
        in_code = next_code;
    }
    assert forall|d: Delimiter| seen.count(d) == #[trigger] closers_from(
        s@,
        marks@,
        0,
        false,
        d,
    ) by {
        assert(closers_from(s@, marks@, i as int, in_code, d) == 0);
    }
    seen
}

/// Labels the characters of `s`: `None` for markup, the modifiers for text.
pub fn label_text(s: &[char], marks: &FlankMarks) -> (labels: Vec<Option<MarkdownModifers>>)
    requires
        marks.opens.len() == s.len(),
        marks.closes.len() == s.len(),
    ensures
        labels@ == labels_from(s@, marks@, 0, Emphasis::none()),
        labels.len() == s.len(),
{
    let total = tally_closers(s, marks);
    let mut seen = Tally::zero();
    let mut labels: Vec<Option<MarkdownModifers>> = Vec::new();
    let mut e = Emphasis::start();
    let mut i: usize = 0;
    let ghost all = labels_from(s@, marks@, 0, Emphasis::none());
    assert(labels@ + all =~= all);
    while i < s.len()
        invariant
            i <= s.len(),
            marks.opens.len() == s.len(),
            marks.closes.len() == s.len(),
            labels.len() == i,
            forall|d: Delimiter| total.count(d) == #[trigger] closers_from(s@, marks@, 0, false, d),
            forall|d: Delimiter| seen.count(d) <= i,
            forall|d: Delimiter|
                seen.count(d) + #[trigger] closers_from(s@, marks@, i as int, e.code, d)
                    == total.count(d),
            labels@ + labels_from(s@, marks@, i as int, e) == all,
        decreases s.len() - i,
    {
        let (t, len, next_code) = read_token(s, marks, i, e.code);
        let ghost before = e;
        let ghost rest = labels_from(s@, marks@, i + len, after_token(s@, marks@, i as int, e, t));
        let ghost seen_before = seen;
        let markup: bool = match t {
            Token::Backtick => e.code || next_code,
            Token::Mark(d) => {
                proof {
                    lemma_closers_step(s@, marks@, i as int, e.code, d);
                    assert(seen.count(d) <= i);
                }
                let closes: bool = closes_here(s, marks, i);
                if closes {
                    seen.bump(d);
                }
                let left: usize = total.get(d) - seen.get(d);
                if e.open_now(d) {
                    closes
                } else {
                    opens_here(s, marks, i) && left > 0
                }
            },
            Token::Literal => false,
        };
        assert forall|d: Delimiter|
            seen.count(d) <= i + len && seen.count(d) + #[trigger] closers_from(
                s@,
                marks@,
                i + len,
                next_code,
                d,
            ) == total.count(d) by {
            lemma_closers_step(s@, marks@, i as int, before.code, d);
            assert(seen_before.count(d) <= i);
        }
        assert(markup == is_markup(s@, marks@, i as int, before, t));
        let label: Option<MarkdownModifers> = if markup {
            None
        } else {
            Some(e.to_modifiers())
        };
        if markup {
            match t {
                Token::Backtick => {
                    e.code = !e.code;
                },
                Token::Mark(d) => {
                    e = e.toggle(d);
                },
                Token::Literal => {},
            }
        }
        assert(e == after_token(s@, marks@, i as int, before, t));
        assert(e.code == next_code);
        let ghost old_labels = labels@;
        labels.push(label);
        if len == 2 {
            labels.push(label);
            assert(labels@ + rest =~= old_labels + (seq![label, label] + rest));
        } else {
            assert(labels@ + rest =~= old_labels + (seq![label] + rest));
        }
        i += len;
    }
    assert(labels@ + Seq::<Option<MarkdownModifers>>::empty() =~= labels@);
    labels
}

/// Appends to `out` the segment of the run gathered in `run`, if it is not
/// empty.
fn flush_run(out: &mut Vec<TextImage>, run: String, modifiers: MarkdownModifers)
    ensures
        views(final(out)@) == views(old(out)@) + run_segment(run@, modifiers),
{
    let ghost before = out@;
    if run.as_str().is_empty() {
        assert(views(before) + Seq::<InlineSegment>::empty() =~= views(before));
    } else {
        let segment = TextImage::Text(TextData { content: run, text_options: modifiers });
        proof {
            lemma_views_push(before, segment);
        }
        out.push(segment);
        assert(views(out@) =~= views(before) + run_segment(run@, modifiers));
    }
}

/// Appends to `out` the text segments that `labels` set apart in `s`.
pub fn append_runs(out: &mut Vec<TextImage>, s: &[char], labels: &[Option<MarkdownModifers>])
    requires
        labels.len() == s.len(),
    ensures
        views(final(out)@) == views(old(out)@) + runs_from(
            s@,
            labels@,
            0,
            Seq::empty(),
            MarkdownModifers::plain(),
        ),
{
    let ghost before = views(out@);
    let ghost all = runs_from(s@, labels@, 0, Seq::empty(), MarkdownModifers::plain());
    let mut run = String::new();
    let mut modifiers = MarkdownModifers::normal();
    let mut i: usize = 0;
    while i < s.len()
        invariant
            i <= s.len(),
            labels.len() == s.len(),
            views(out@) + runs_from(s@, labels@, i as int, run@, modifiers) == before + all,
        decreases s.len() - i,
    {
        match labels[i] {
            None => {},
            Some(m) => {
                if run.as_str().is_empty() || m == modifiers {
                    run.push(s[i]);
                    modifiers = m;
                } else {
                    let ghost sealed = run_segment(run@, modifiers);
                    let ghost rest = runs_from(s@, labels@, i + 1, seq![s[i as int]], m);
                    let ghost so_far = views(out@);
                    flush_run(out, run, modifiers);
                    run = String::new();
                    run.push(s[i]);
                    modifiers = m;
                    assert(run@ =~= seq![s[i as int]]);
                    assert((so_far + sealed) + rest =~= so_far + (sealed + rest));
                }
            },
        }
        i += 1;
    }
    flush_run(out, run, modifiers);
}

/// Appends to `out` the text segments of the piece of plain text `s`.
pub fn append_emphasis(out: &mut Vec<TextImage>, s: &[char], word: &[bool])
    requires
        word.len() == s.len(),
    ensures
        views(final(out)@) == views(old(out)@) + emphasis_segments(s@, word@),
{
    let marks = mark_flanks(s, word);
    let labels = label_text(s, &marks);
    append_runs(out, s, labels.as_slice());
}

/// Splits a piece of plain text, whose characters have the word mask `word`,
/// into its sections: the maximal runs of text under one combination of
/// modifiers, without the delimiters.
pub fn split_with_mask(string: &[char], word: &[bool]) -> (sections: Vec<TextImage>)
    requires
        word.len() == string.len(),
    ensures
        views(sections@) == emphasis_segments(string@, word@),
        visible_text(views(sections@)) == emphasis_text(string@, word@),
        remains_of(emphasis_text(string@, word@), string@),
{
    let mut sections: Vec<TextImage> = Vec::new();
    assert(views(sections@) =~= Seq::<InlineSegment>::empty());
    append_emphasis(&mut sections, string, word);
    proof {
        lemma_emphasis_keeps_text(string@, word@);
        lemma_emphasis_text_remains(string@, word@);
        assert(Seq::<InlineSegment>::empty() + emphasis_segments(string@, word@)
            =~= emphasis_segments(string@, word@));
    }
    sections
}

/// Splits a piece of plain text into its sections, with the word mask that
/// the split at its word boundaries gives. The text is split only where it
/// holds an underscore.
pub fn split_into_sections(string: &str) -> (sections: Vec<TextImage>)
    ensures
        views(sections@) == emphasis_segments(string@, word_mask_of(string@)),
        visible_text(views(sections@)) == emphasis_text(string@, word_mask_of(string@)),
        remains_of(emphasis_text(string@, word_mask_of(string@)), string@),
{
    let chars = chars_of(string);
    let word = needed_word_mask(string, chars.as_slice());
    proof {
        if has_no_underscore(string@) {
            lemma_mask_serves_underscores(string@, needed_mask(string@), word_mask_of(string@));
        }
    }
    split_with_mask(chars.as_slice(), word.as_slice())
}

} // verus!
