//! Character sequences: conversions between strings and character vectors,
//! runs of a character class, and the division of a document into lines.

use vstd::prelude::*;

verus! {

/// `String::push` appends the given character to the end of the string.
pub assume_specification[ String::push ](s: &mut String, ch: char)
    ensures
        final(s)@ == old(s)@.push(ch),
;

/// The views of the elements of `items`, in order.
pub open spec fn views<T: View>(items: Seq<T>) -> Seq<T::V> {
    items.map_values(|item: T| item@)
}

/// Appending an element appends its view.
pub proof fn lemma_views_push<T: View>(items: Seq<T>, item: T)
    ensures
        views(items.push(item)) == views(items).push(item@),
{
}

/// The characters of `s`, in order.
pub fn chars_of(s: &str) -> (r: Vec<char>)
    ensures
        r@ == s@,
{
    let mut out: Vec<char> = Vec::new();
    for c in it: s.chars()
        invariant
            out@ == s@.take(it.index() as int),
            it.seq() == s@,
    {
        out.push(c);
    }
    out
}

/// The string made of `chars[from..to]`.
pub fn string_of(chars: &[char], from: usize, to: usize) -> (r: String)
    requires
        from <= to <= chars.len(),
    ensures
        r@ == chars@.subrange(from as int, to as int),
{
    let mut out = String::new();
    let mut i: usize = from;
    while i < to
        invariant
            from <= i <= to <= chars.len(),
            out@ == chars@.subrange(from as int, i as int),
        decreases to - i,
    {
        out.push(chars[i]);
        i += 1;
    }
    out
}

/// Whether `picks` are positions of `whole`, in rising order.
pub open spec fn rising_in(picks: Seq<int>, whole: Seq<char>) -> bool {
    &&& forall|k: int| 0 <= k < picks.len() ==> 0 <= #[trigger] picks[k] < whole.len()
    &&& forall|j: int, k: int| 0 <= j < k < picks.len() ==> picks[j] < picks[k]
}

/// The characters of `whole` at the positions `picks`.
pub open spec fn picked(picks: Seq<int>, whole: Seq<char>) -> Seq<char> {
    Seq::new(picks.len(), |k: int| whole[picks[k]])
}

/// Whether `part` is what remains of `whole` when some of its characters are
/// taken out: the characters of `part` are characters of `whole`, in the
/// same order.
#[verifier::opaque]
pub open spec fn remains_of(part: Seq<char>, whole: Seq<char>) -> bool {
    exists|picks: Seq<int>| rising_in(picks, whole) && #[trigger] picked(picks, whole) == part
}

/// Nothing remains of any text, and every text remains of itself.
pub proof fn lemma_remains_all_or_nothing(whole: Seq<char>)
    ensures
        remains_of(Seq::empty(), whole),
        remains_of(whole, whole),
{
    reveal(remains_of);
    let none = Seq::<int>::empty();
    assert(picked(none, whole) =~= Seq::<char>::empty());
    let all = Seq::new(whole.len(), |k: int| k);
    assert(picked(all, whole) =~= whole);
}

/// What remains of two texts, one after the other, remains of the two texts
/// joined.
pub proof fn lemma_remains_add(a: Seq<char>, b: Seq<char>, c: Seq<char>, d: Seq<char>)
    requires
        remains_of(a, b),
        remains_of(c, d),
    ensures
        remains_of(a + c, b + d),
{
    reveal(remains_of);
    let first = choose|picks: Seq<int>| rising_in(picks, b) && #[trigger] picked(picks, b) == a;
    let second = choose|picks: Seq<int>| rising_in(picks, d) && #[trigger] picked(picks, d) == c;
    let picks = first + Seq::new(second.len(), |k: int| second[k] + b.len());
    assert forall|k: int| first.len() <= k < picks.len() implies #[trigger] picks[k] == second[k
        - first.len()] + b.len() by {}
    assert(rising_in(picks, b + d));
    assert forall|k: int| 0 <= k < picks.len() implies picked(picks, b + d)[k] == (a + c)[k] by {
        if k < first.len() {
            assert(picked(first, b)[k] == b[first[k]]);
        } else {
            assert(picked(second, d)[k - first.len()] == d[second[k - first.len()]]);
        }
    }
    assert(picked(picks, b + d) =~= a + c);
}

/// What remains of a stretch of a text remains of the text.
pub proof fn lemma_remains_of_stretch(part: Seq<char>, whole: Seq<char>, from: int, to: int)
    requires
        0 <= from <= to <= whole.len(),
        remains_of(part, whole.subrange(from, to)),
    ensures
        remains_of(part, whole),
{
    let before = whole.subrange(0, from);
    let stretch = whole.subrange(from, to);
    let after = whole.subrange(to, whole.len() as int);
    let empty = Seq::<char>::empty();
    lemma_remains_all_or_nothing(before);
    lemma_remains_all_or_nothing(after);
    lemma_remains_add(empty, before, part, stretch);
    assert(empty + part =~= part);
    lemma_remains_add(part, before + stretch, empty, after);
    assert(part + empty =~= part);
    assert(before + stretch + after =~= whole);
}

/// The character classes that the line grammar tells apart.
#[derive(Clone, Copy, Debug)]
pub enum CharClass {
    /// Horizontal whitespace: a space or a tab.
    Blank,
    /// White space of any kind: what `str::trim` strips.
    White,
    /// An ASCII decimal digit.
    Digit,
    /// The given character and no other.
    Only(char),
    /// Every character but the given one.
    Except(char),
}

/// Horizontal whitespace: a space or a tab.
pub open spec fn is_blank(c: char) -> bool {
    c == ' ' || c == '\t'
}

/// White space of any kind: the characters that have the Unicode property
/// `White_Space`, which are the characters that `str::trim` strips. They are
/// the controls from the tab to the carriage return, the space, the next
/// line control, the no-break space, the ogham space mark, the spaces from
/// the en quad to the hair space, the line separator, the paragraph
/// separator, the narrow no-break space, the medium mathematical space and
/// the ideographic space.
pub open spec fn is_white_space(c: char) -> bool {
    ||| '\u{9}' <= c && c <= '\u{D}'
    ||| c == ' '
    ||| c == '\u{85}'
    ||| c == '\u{A0}'
    ||| c == '\u{1680}'
    ||| '\u{2000}' <= c && c <= '\u{200A}'
    ||| c == '\u{2028}'
    ||| c == '\u{2029}'
    ||| c == '\u{202F}'
    ||| c == '\u{205F}'
    ||| c == '\u{3000}'
}

/// An ASCII decimal digit.
pub open spec fn is_digit(c: char) -> bool {
    '0' <= c && c <= '9'
}

/// Whether `c` belongs to `class`.
pub open spec fn in_class(c: char, class: CharClass) -> bool {
    match class {
        CharClass::Blank => is_blank(c),
        CharClass::White => is_white_space(c),
        CharClass::Digit => is_digit(c),
        CharClass::Only(x) => c == x,
        CharClass::Except(x) => c != x,
    }
}

/// The index just past the longest run of `class` characters that begins at
/// `start`; `start` itself where no such character stands there.
pub open spec fn run_end(s: Seq<char>, start: int, class: CharClass) -> int
    decreases s.len() - start,
{
    if 0 <= start < s.len() && in_class(s[start], class) {
        run_end(s, start + 1, class)
    } else {
        start
    }
}

/// What `run_end` is: every character of the run is in the class, and the run
/// stops at the end of the text or before a character outside the class.
pub proof fn lemma_run_end(s: Seq<char>, start: int, class: CharClass)
    requires
        0 <= start <= s.len(),
    ensures
        start <= run_end(s, start, class) <= s.len(),
        forall|i: int| start <= i < run_end(s, start, class) ==> in_class(#[trigger] s[i], class),
        run_end(s, start, class) < s.len() ==> !in_class(s[run_end(s, start, class)], class),
    decreases s.len() - start,
{
    if start < s.len() && in_class(s[start], class) {
        lemma_run_end(s, start + 1, class);
    }
}

/// Whether `c` belongs to `class`.
pub fn has_class(c: char, class: CharClass) -> (b: bool)
    ensures
        b == in_class(c, class),
{
    match class {
        CharClass::Blank => c == ' ' || c == '\t',
        CharClass::White => {
            ('\u{9}' <= c && c <= '\u{D}') || c == ' ' || c == '\u{85}' || c == '\u{A0}' || c
                == '\u{1680}' || ('\u{2000}' <= c && c <= '\u{200A}') || c == '\u{2028}' || c
                == '\u{2029}' || c == '\u{202F}' || c == '\u{205F}' || c == '\u{3000}'
        },
        CharClass::Digit => '0' <= c && c <= '9',
        CharClass::Only(x) => c == x,
        CharClass::Except(x) => c != x,
    }
}

/// Scans the run of `class` characters that begins at `start`.
pub fn scan_run(s: &[char], start: usize, class: CharClass) -> (end: usize)
    requires
        start <= s.len(),
    ensures
        end == run_end(s@, start as int, class),
        start <= end <= s.len(),
{
    let mut i: usize = start;
    while i < s.len() && has_class(s[i], class)
        invariant
            start <= i <= s.len(),
            run_end(s@, i as int, class) == run_end(s@, start as int, class),
        decreases s.len() - i,
    {
        i += 1;
    }
    i
}

/// The index of the first `first` that is directly followed by `second`, at or
/// after `from`; the length of the text where there is none.
pub open spec fn find_two(s: Seq<char>, from: int, first: char, second: char) -> int
    decreases s.len() - from,
{
    if from < 0 || from + 1 >= s.len() {
        s.len() as int
    } else if s[from] == first && s[from + 1] == second {
        from
    } else {
        find_two(s, from + 1, first, second)
    }
}

/// What `find_two` is: the pair stands at the index found, and at no earlier
/// index from `from` on.
pub proof fn lemma_find_two(s: Seq<char>, from: int, first: char, second: char)
    requires
        0 <= from,
    ensures
        from <= find_two(s, from, first, second) || find_two(s, from, first, second) == s.len(),
        find_two(s, from, first, second) <= s.len(),
        find_two(s, from, first, second) < s.len() ==> {
            let i = find_two(s, from, first, second);
            i + 1 < s.len() && s[i] == first && s[i + 1] == second
        },
        forall|i: int|
            from <= i < find_two(s, from, first, second) && i + 1 < s.len() ==> !(#[trigger] s[i]
                == first && s[i + 1] == second),
    decreases s.len() - from,
{
    if from + 1 < s.len() && !(s[from] == first && s[from + 1] == second) {
        lemma_find_two(s, from + 1, first, second);
    }
}

/// Searches for `first` directly followed by `second`, from `from` on.
pub fn scan_two(s: &[char], from: usize, first: char, second: char) -> (at: usize)
    ensures
        at == find_two(s@, from as int, first, second),
        at <= s.len(),
{
    let n: usize = s.len();
    if n < 2 || from >= n - 1 {
        return n;
    }
    let mut i: usize = from;
    while i < n - 1
        invariant
            n == s.len(),
            n >= 2,
            from <= i <= n - 1,
            find_two(s@, i as int, first, second) == find_two(s@, from as int, first, second),
        decreases n - i,
    {
        if s[i] == first && s[i + 1] == second {
            return i;
        }
        i += 1;
    }
    n
}

/// A copy of `s[from..to]`.
pub fn copy_range(s: &[char], from: usize, to: usize) -> (r: Vec<char>)
    requires
        from <= to <= s.len(),
    ensures
        r@ == s@.subrange(from as int, to as int),
{
    let mut out: Vec<char> = Vec::new();
    let mut i: usize = from;
    while i < to
        invariant
            from <= i <= to <= s.len(),
            out@ == s@.subrange(from as int, i as int),
        decreases to - i,
    {
        out.push(s[i]);
        i += 1;
    }
    out
}

/// Where a line stops that begins at `start` and whose line feed stands at
/// `end`: before the carriage return that stands directly before the line
/// feed, where there is one, and before the line feed where there is none.
pub open spec fn line_stop(s: Seq<char>, start: int, end: int) -> int {
    if start < end && s[end - 1] == '\r' {
        end - 1
    } else {
        end
    }
}

/// The lines of the text from `start` on. A line ends before a line feed, or
/// before a carriage return directly followed by a line feed, or at the end
/// of the text; a line feed that ends the text begins no further line. A
/// carriage return that no line feed follows stays in its line.
pub open spec fn lines_from(s: Seq<char>, start: int) -> Seq<Seq<char>>
    decreases s.len() - start,
{
    if start < 0 || start >= s.len() {
        Seq::empty()
    } else {
        let end = run_end(s, start, CharClass::Except('\n'));
        if start <= end < s.len() {
            seq![s.subrange(start, line_stop(s, start, end))] + lines_from(s, end + 1)
        } else {
            seq![s.subrange(start, s.len() as int)]
        }
    }
}

/// The lines of a document, as `str::lines` divides it. The line endings
/// belong to no line.
pub open spec fn lines_of(s: Seq<char>) -> Seq<Seq<char>> {
    lines_from(s, 0)
}

/// Divides a document into its lines.
pub fn split_lines(s: &[char]) -> (r: Vec<Vec<char>>)
    ensures
        views(r@) == lines_of(s@),
{
    let mut lines: Vec<Vec<char>> = Vec::new();
    let mut start: usize = 0;
    while start < s.len()
        invariant
            start <= s.len(),
            views(lines@) + lines_from(s@, start as int) == lines_of(s@),
        decreases s.len() - start,
    {
        let end: usize = scan_run(s, start, CharClass::Except('\n'));
        let stop: usize = if end < s.len() && start < end && s[end - 1] == '\r' {
            end - 1
        } else {
            end
        };
        let line = copy_range(s, start, stop);
        let ghost rest = if end < s.len() {
            lines_from(s@, end + 1)
        } else {
            Seq::<Seq<char>>::empty()
        };
        proof {
            lemma_views_push(lines@, line);
            assert(lines_from(s@, start as int) =~= seq![line@] + rest);
        }
        lines.push(line);
        if end < s.len() {
            start = end + 1;
        } else {
            start = end;
        }
    }
    lines
}

} // verus!
