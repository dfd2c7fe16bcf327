//! The fixed patterns of the line grammar: each is a predicate or a finder
//! over the characters of one line, and consults nothing else.

use crate::text::{
    find_two, has_class, is_blank, lemma_find_two, lemma_run_end, run_end, scan_run, scan_two,
    CharClass,
};
use vstd::prelude::*;

verus! {

/// The number of leading horizontal-whitespace columns that make one level of
/// list nesting. A tab counts as a whole level.
pub const INDENT_WIDTH: usize = 2;

/// A line that begins with three backticks.
pub open spec fn code_fence_delimiter(line: Seq<char>) -> bool {
    line.len() >= 3 && line[0] == '`' && line[1] == '`' && line[2] == '`'
}

/// One of the characters that mark an item of an unordered list.
pub open spec fn is_bullet(c: char) -> bool {
    c == '*' || c == '-' || c == '+'
}

/// A line that begins with optional horizontal whitespace, one or more digits
/// and a full stop.
pub open spec fn ordered_list_marker(line: Seq<char>) -> bool {
    let indent = run_end(line, 0, CharClass::Blank);
    let digits = run_end(line, indent, CharClass::Digit);
    indent < digits < line.len() && line[digits] == '.'
}

/// A line that begins with optional horizontal whitespace and one of `*`, `-`
/// and `+`.
pub open spec fn unordered_list_marker(line: Seq<char>) -> bool {
    let indent = run_end(line, 0, CharClass::Blank);
    indent < line.len() && is_bullet(line[indent])
}

/// A line that, once trimmed, is three or more `-` and nothing else. Trimming
/// takes away white space of any kind from both ends, as `str::trim` does.
pub open spec fn horizontal_rule(line: Seq<char>) -> bool {
    let left = run_end(line, 0, CharClass::White);
    let dashes = run_end(line, left, CharClass::Only('-'));
    let right = run_end(line, dashes, CharClass::White);
    dashes - left >= 3 && right == line.len()
}

/// The level of the heading marker that stands at `at`: one to six `#`
/// followed by horizontal whitespace.
pub open spec fn heading_marker(line: Seq<char>, at: int) -> Option<nat> {
    let hashes = run_end(line, at, CharClass::Only('#'));
    if 1 <= hashes - at <= 6 && hashes < line.len() && is_blank(line[hashes]) {
        Some((hashes - at) as nat)
    } else {
        None
    }
}

/// How many of the first `n` characters of `s` are `c`.
pub open spec fn count_of(s: Seq<char>, n: int, c: char) -> nat
    decreases n,
{
    if n <= 0 || n > s.len() {
        0
    } else {
        count_of(s, n - 1, c) + if s[n - 1] == c {
            1nat
        } else {
            0nat
        }
    }
}

/// The nesting depth of a list item: one, plus one for each tab and for each
/// full `INDENT_WIDTH` spaces of its indentation.
pub open spec fn item_depth(line: Seq<char>) -> nat {
    let indent = run_end(line, 0, CharClass::Blank);
    1 + count_of(line, indent, '\t') + count_of(line, indent, ' ') / (INDENT_WIDTH as nat)
}

/// Where the text begins that follows the blockquote markers standing at
/// `at`: each marker is a run of `>`, and horizontal whitespace may follow it.
pub open spec fn after_quotes(line: Seq<char>, at: int) -> int
    decreases line.len() - at,
{
    let marks = run_end(line, at, CharClass::Only('>'));
    let next = run_end(line, marks, CharClass::Blank);
    if at < marks <= next <= line.len() {
        after_quotes(line, next)
    } else {
        at
    }
}

/// The number of `>` in the blockquote markers standing at `at`.
pub open spec fn quote_depth(line: Seq<char>, at: int) -> nat
    decreases line.len() - at,
{
    let marks = run_end(line, at, CharClass::Only('>'));
    let next = run_end(line, marks, CharClass::Blank);
    if at < marks <= next <= line.len() {
        (marks - at) as nat + quote_depth(line, next)
    } else {
        0
    }
}

/// The blockquote markers never reach past the line, and there are no more
/// `>` in them than characters before the text they lead to.
pub proof fn lemma_quotes_bounded(line: Seq<char>, at: int)
    requires
        0 <= at <= line.len(),
    ensures
        at <= after_quotes(line, at) <= line.len(),
        quote_depth(line, at) <= after_quotes(line, at) - at,
        quote_depth(line, at) == 0 <==> after_quotes(line, at) == at,
    decreases line.len() - at,
{
    let marks = run_end(line, at, CharClass::Only('>'));
    lemma_run_end(line, at, CharClass::Only('>'));
    lemma_run_end(line, marks, CharClass::Blank);
    let next = run_end(line, marks, CharClass::Blank);
    if at < marks {
        lemma_quotes_bounded(line, next);
    }
}

/// The three positions of a bracketed markup whose opening stands at `open`
/// and is `open_len` characters long: the opening itself, the first `](`
/// after it, and the first `)` after that. `None` where one of them is
/// missing.
pub open spec fn bracket_markup(s: Seq<char>, open: int, open_len: int) -> Option<(int, int, int)> {
    let mid = find_two(s, open + open_len, ']', '(');
    let close = run_end(s, mid + 2, CharClass::Except(')'));
    if 0 <= open && open + open_len <= mid && mid + 2 <= close < s.len() {
        Some((open, mid, close))
    } else {
        None
    }
}

/// The leftmost image markup `![alt](url)`, with the shortest alternative
/// text and the shortest address.
pub open spec fn image_markup(s: Seq<char>) -> Option<(int, int, int)> {
    bracket_markup(s, find_two(s, 0, '!', '['), 2)
}

/// The leftmost link markup `[text](url)`, with the shortest text and the
/// shortest address.
pub open spec fn link_markup(s: Seq<char>) -> Option<(int, int, int)> {
    bracket_markup(s, run_end(s, 0, CharClass::Except('[')), 1)
}

/// What is found is a markup: its opening, its `](` and its `)` stand at the
/// positions given, no `](` stands between the opening and the one found,
/// and no `)` between the `](` and the one found.
pub proof fn lemma_markup_found(s: Seq<char>, image: bool)
    requires
        (if image {
            image_markup(s)
        } else {
            link_markup(s)
        }) is Some,
    ensures
        ({
            let (open, mid, close) = (if image {
                image_markup(s)
            } else {
                link_markup(s)
            })->0;
            let text = if image {
                open + 2
            } else {
                open + 1
            };
            &&& 0 <= open < text <= mid
            &&& mid + 2 <= close < s.len()
            &&& image ==> s[open] == '!' && s[open + 1] == '['
            &&& !image ==> s[open] == '['
            &&& s[mid] == ']'
            &&& s[mid + 1] == '('
            &&& s[close] == ')'
            &&& forall|i: int| text <= i < mid ==> !(#[trigger] s[i] == ']' && s[i + 1] == '(')
            &&& forall|i: int| mid + 2 <= i < close ==> #[trigger] s[i] != ')'
        }),
{
    let open = if image {
        find_two(s, 0, '!', '[')
    } else {
        run_end(s, 0, CharClass::Except('['))
    };
    let text = if image {
        open + 2
    } else {
        open + 1
    };
    lemma_find_two(s, 0, '!', '[');
    lemma_run_end(s, 0, CharClass::Except('['));
    lemma_find_two(s, text, ']', '(');
    let mid = find_two(s, text, ']', '(');
    lemma_run_end(s, mid + 2, CharClass::Except(')'));
}

/// A markup is found wherever one stands, and the one found is the leftmost,
/// with the nearest `](` and the nearest `)`: for an opening at `i`, a `](`
/// at `j` and a `)` at `k`, the opening found is at `i` or before it, and
/// where it is at `i`, the `](` found is at `j` or before it, and where that
/// is at `j`, the `)` found is at `k` or before it.
pub proof fn lemma_markup_leftmost(s: Seq<char>, image: bool, i: int, j: int, k: int)
    requires
        0 <= i,
        image ==> i + 1 < s.len() && s[i] == '!' && s[i + 1] == '[',
        !image ==> i < s.len() && s[i] == '[',
        i + (if image {
            2int
        } else {
            1int
        }) <= j,
        j + 2 <= k < s.len(),
        s[j] == ']',
        s[j + 1] == '(',
        s[k] == ')',
    ensures
        ({
            let found = if image {
                image_markup(s)
            } else {
                link_markup(s)
            };
            &&& found matches Some((open, mid, close))
            &&& open <= i
            &&& open == i ==> mid <= j
            &&& open == i && mid == j ==> close <= k
        }),
{
    let open_len = if image {
        2int
    } else {
        1int
    };
    let open = if image {
        find_two(s, 0, '!', '[')
    } else {
        run_end(s, 0, CharClass::Except('['))
    };
    lemma_find_two(s, 0, '!', '[');
    lemma_run_end(s, 0, CharClass::Except('['));
    lemma_find_two(s, open + open_len, ']', '(');
    let mid = find_two(s, open + open_len, ']', '(');
    lemma_run_end(s, mid + 2, CharClass::Except(')'));
    let close = run_end(s, mid + 2, CharClass::Except(')'));
}

/// Tests the `code_fence_delimiter` pattern.
pub fn match_code_fence_delimiter(line: &[char]) -> (b: bool)
    ensures
        b == code_fence_delimiter(line@),
{
    line.len() >= 3 && line[0] == '`' && line[1] == '`' && line[2] == '`'
}

/// Counts the `c` among the first `n` characters of `s`.
fn count_chars(s: &[char], n: usize, c: char) -> (count: usize)
    requires
        n <= s.len(),
    ensures
        count == count_of(s@, n as int, c),
        count <= n,
{
    let mut count: usize = 0;
    let mut i: usize = 0;
    while i < n
        invariant
            i <= n <= s.len(),
            count == count_of(s@, i as int, c),
            count <= i,
        decreases n - i,
    {
        if s[i] == c {
            count += 1;
        }
        i += 1;
    }
    count
}

/// The nesting depth of a list item whose marker stands at `indent`.
fn depth_of_item(line: &[char], indent: usize) -> (depth: usize)
    requires
        indent < line.len(),
        indent == run_end(line@, 0, CharClass::Blank),
    ensures
        depth == item_depth(line@),
{
    let tabs: usize = count_chars(line, indent, '\t');
    let spaces: usize = count_chars(line, indent, ' ');
    proof {
        lemma_tabs_and_spaces(line@, indent as int);
    }
    1 + tabs + spaces / INDENT_WIDTH
}

/// Tabs and spaces are different characters, so together they are no more
/// than the characters counted.
proof fn lemma_tabs_and_spaces(s: Seq<char>, n: int)
    requires
        0 <= n <= s.len(),
    ensures
        count_of(s, n, '\t') + count_of(s, n, ' ') <= n,
    decreases n,
{
    if n > 0 {
        lemma_tabs_and_spaces(s, n - 1);
    }
}

/// Tests the `ordered_list_marker` pattern, and gives the item's depth.
pub fn match_ordered_list_marker(line: &[char]) -> (r: Option<usize>)
    ensures
        r is Some <==> ordered_list_marker(line@),
        r matches Some(depth) ==> depth == item_depth(line@),
{
    let indent: usize = scan_run(line, 0, CharClass::Blank);
    let digits: usize = scan_run(line, indent, CharClass::Digit);
    if indent < digits && digits < line.len() && line[digits] == '.' {
        Some(depth_of_item(line, indent))
    } else {
        None
    }
}

/// Tests the `unordered_list_marker` pattern, and gives the item's depth.
pub fn match_unordered_list_marker(line: &[char]) -> (r: Option<usize>)
    ensures
        r is Some <==> unordered_list_marker(line@),
        r matches Some(depth) ==> depth == item_depth(line@),
{
    let indent: usize = scan_run(line, 0, CharClass::Blank);
    if indent < line.len() && (line[indent] == '*' || line[indent] == '-' || line[indent] == '+') {
        Some(depth_of_item(line, indent))
    } else {
        None
    }
}

/// Tests the `horizontal_rule` pattern.
pub fn match_horizontal_rule(line: &[char]) -> (b: bool)
    ensures
        b == horizontal_rule(line@),
{
    let left: usize = scan_run(line, 0, CharClass::White);
    let dashes: usize = scan_run(line, left, CharClass::Only('-'));
    let right: usize = scan_run(line, dashes, CharClass::White);
    dashes - left >= 3 && right == line.len()
}

/// Tests the `heading_marker` pattern at `at`, and gives the heading's level.
pub fn match_heading_marker(line: &[char], at: usize) -> (r: Option<usize>)
    requires
        at <= line.len(),
    ensures
        r is Some <==> heading_marker(line@, at as int) is Some,
        r matches Some(level) ==> heading_marker(line@, at as int) == Some(level as nat),
{
    let hashes: usize = scan_run(line, at, CharClass::Only('#'));
    let level: usize = hashes - at;
    if 1 <= level && level <= 6 && hashes < line.len() && has_class(line[hashes], CharClass::Blank) {
        Some(level)
    } else {
        None
    }
}

/// Skips the blockquote markers that stand at `at`: gives where the text
/// after them begins, and how many `>` they hold.
pub fn skip_quotes(line: &[char], at: usize) -> (r: (usize, usize))
    requires
        at <= line.len(),
    ensures
        r.0 == after_quotes(line@, at as int),
        r.1 == quote_depth(line@, at as int),
        at <= r.0 <= line.len(),
        r.1 <= r.0 - at,
{
    let mut pos: usize = at;
    let mut depth: usize = 0;
    loop
        invariant
            at <= pos <= line.len(),
            depth <= pos - at,
            after_quotes(line@, pos as int) == after_quotes(line@, at as int),
            depth + quote_depth(line@, pos as int) == quote_depth(line@, at as int),
        decreases line.len() - pos,
    {
        let marks: usize = scan_run(line, pos, CharClass::Only('>'));
        if marks == pos {
            return (pos, depth);
        }
        let next: usize = scan_run(line, marks, CharClass::Blank);
        depth = depth + (marks - pos);
        pos = next;
    }
}

/// Completes a bracketed markup whose opening stands at `open`.
fn find_bracket_markup(s: &[char], open: usize, open_len: usize) -> (r: Option<(usize, usize, usize)>)
    requires
        1 <= open_len <= 2,
    ensures
        r is Some <==> bracket_markup(s@, open as int, open_len as int) is Some,
        r matches Some(m) ==> bracket_markup(s@, open as int, open_len as int) == Some(
            (m.0 as int, m.1 as int, m.2 as int),
        ),
{
    if open >= s.len() || s.len() - open <= open_len {
        return None;
    }
    let mid: usize = scan_two(s, open + open_len, ']', '(');
    if mid >= s.len() {
        return None;
    }
    proof {
        lemma_find_two(s@, open + open_len, ']', '(');
    }
    let close: usize = scan_run(s, mid + 2, CharClass::Except(')'));
    if close >= s.len() {
        return None;
    }
    Some((open, mid, close))
}

/// Finds the `image_markup` pattern.
pub fn find_image_markup(s: &[char]) -> (r: Option<(usize, usize, usize)>)
    ensures
        r is Some <==> image_markup(s@) is Some,
        r matches Some(m) ==> image_markup(s@) == Some((m.0 as int, m.1 as int, m.2 as int)),
{
    let open: usize = scan_two(s, 0, '!', '[');
    find_bracket_markup(s, open, 2)
}

/// Finds the `link_markup` pattern.
pub fn find_link_markup(s: &[char]) -> (r: Option<(usize, usize, usize)>)
    ensures
        r is Some <==> link_markup(s@) is Some,
        r matches Some(m) ==> link_markup(s@) == Some((m.0 as int, m.1 as int, m.2 as int)),
{
    let open: usize = scan_run(s, 0, CharClass::Except('['));
    find_bracket_markup(s, open, 1)
}

} // verus!
