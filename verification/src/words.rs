//! Words: which characters of a text belong to a word, as a split of the
//! text at its word boundaries shows it.

use crate::text::{lemma_run_end, scan_run, views, CharClass};
use vstd::prelude::*;
use vstd::string::StrSliceExecFns;

verus! {

/// The pattern of a word boundary: the empty match between a word character
/// and a character that is none, or the start or the end of the text.
pub const WORD_BOUNDARY: &'static str = "\\b";

/// What `regex::Regex::split` yields for the regular expression compiled from
/// `pattern`, on `haystack`: the parts of the haystack between its matches,
/// in order. `None` where `pattern` does not compile.
pub uninterp spec fn regex_split(pattern: Seq<char>, haystack: Seq<char>) -> Option<
    Seq<Seq<char>>,
>;

/// Compiles `pattern` with `regex::Regex::new` and collects what
/// `Regex::split` yields on `haystack`. The contract only names the result:
/// the same pattern and haystack give the same parts, and there are none
/// exactly where the pattern is refused.
#[verifier::external_body]
fn split_by_regex(pattern: &str, haystack: &str) -> (parts: Option<Vec<String>>)
    ensures
        parts is Some <==> regex_split(pattern@, haystack@) is Some,
        parts matches Some(v) ==> regex_split(pattern@, haystack@) == Some(views(v@)),
{
    match regex::Regex::new(pattern) {
        Ok(re) => Some(re.split(haystack).map(String::from).collect()),
        Err(_) => None,
    }
}

/// One mark for each character of the parts, in order: whether the part that
/// holds the character has an odd index.
///
/// A split at the word boundaries yields the text between two boundaries in
/// each part. The part before the first boundary holds no word character, and
/// from there on the parts alternate, so the parts of odd index are the words.
pub open spec fn part_marks(parts: Seq<Seq<char>>) -> Seq<bool>
    decreases parts.len(),
{
    if parts.len() == 0 {
        Seq::empty()
    } else {
        part_marks(parts.drop_last()) + Seq::new(
            parts.last().len(),
            |i: int| parts.len() % 2 == 0,
        )
    }
}

/// The word mask of a text of `n` characters, from the split of the text at
/// its word boundaries: for each character, whether it stands in a word. A
/// character that the parts do not reach, or any character where there is no
/// split, stands in none.
pub open spec fn word_mask(split: Option<Seq<Seq<char>>>, n: nat) -> Seq<bool> {
    Seq::new(
        n,
        |i: int|
            split matches Some(parts) && 0 <= i < part_marks(parts).len() && part_marks(parts)[i],
    )
}

/// The word mask of `line`, from the split that the regular expression
/// `WORD_BOUNDARY` makes of it.
pub open spec fn word_mask_of(line: Seq<char>) -> Seq<bool> {
    word_mask(regex_split(WORD_BOUNDARY@, line), line.len())
}

/// The marks of the first parts are the first marks of all the parts.
proof fn lemma_part_marks_prefix(parts: Seq<Seq<char>>, k: int)
    requires
        0 <= k <= parts.len(),
    ensures
        part_marks(parts.take(k)).len() <= part_marks(parts).len(),
        forall|i: int|
            0 <= i < part_marks(parts.take(k)).len() ==> part_marks(parts.take(k))[i]
                == #[trigger] part_marks(parts)[i],
    decreases parts.len() - k,
{
    if k < parts.len() {
        lemma_part_marks_prefix(parts, k + 1);
        assert(parts.take(k + 1).drop_last() =~= parts.take(k));
    } else {
        assert(parts.take(k) =~= parts);
    }
}

/// Computes the word mask of a text of `n` characters from the parts of its
/// split.
pub fn mark_words(split: &Option<Vec<String>>, n: usize) -> (mask: Vec<bool>)
    ensures
        mask@ == word_mask(
            match split {
                Some(v) => Some(views(v@)),
                None => None,
            },
            n as nat,
        ),
{
    let mut mask: Vec<bool> = Vec::new();
    let ghost wanted = word_mask(
        match split {
            Some(v) => Some(views(v@)),
            None => None,
        },
        n as nat,
    );
    if let Some(v) = split {
        let ghost parts = views(v@);
        let mut k: usize = 0;
        assert(parts.take(0) =~= Seq::<Seq<char>>::empty());
        while k < v.len() && mask.len() < n
            invariant
                k <= v.len(),
                parts == views(v@),
                mask.len() <= n,
                mask.len() <= part_marks(parts.take(k as int)).len(),
                mask.len() < n ==> mask.len() == part_marks(parts.take(k as int)).len(),
                forall|i: int| 0 <= i < mask.len() ==> mask[i] == part_marks(parts.take(k as int))[i],
            decreases v.len() - k,
        {
            let len: usize = v[k].as_str().unicode_len();
            let odd: bool = k % 2 == 1;
            let ghost before = mask@;
            let ghost next = part_marks(parts.take(k + 1));
            proof {
                assert(parts.take(k + 1).drop_last() =~= parts.take(k as int));
                assert(parts.take(k + 1).last() == v@[k as int]@);
                assert(next == part_marks(parts.take(k as int)) + Seq::new(
                    v@[k as int]@.len(),
                    |i: int| odd,
                ));
            }
            let mut j: usize = 0;
            while j < len && mask.len() < n
                invariant
                    j <= len,
                    k < v.len(),
                    mask.len() <= n,
                    mask.len() == before.len() + j,
                    len == v@[k as int]@.len(),
                    before.len() == part_marks(parts.take(k as int)).len(),
                    next == part_marks(parts.take(k as int)) + Seq::new(len as nat, |i: int| odd),
                    forall|i: int| 0 <= i < mask.len() ==> mask[i] == next[i],
                decreases len - j,
            {
                mask.push(odd);
                j += 1;
            }
            k += 1;
        }
        proof {
            lemma_part_marks_prefix(parts, k as int);
            if k == v.len() {
                assert(parts.take(k as int) =~= parts);
            }
        }
        assert(forall|i: int| 0 <= i < mask.len() ==> mask[i] == wanted[i]);
        assert(forall|i: int| mask.len() <= i < n ==> !wanted[i]);
    }
    let ghost head = mask@;
    assert(forall|i: int| 0 <= i < head.len() ==> head[i] == wanted[i]);
    assert(forall|i: int| head.len() <= i < n ==> !wanted[i]);
    while mask.len() < n
        invariant
            mask.len() <= n,
            head.len() <= mask.len(),
            forall|i: int| 0 <= i < head.len() ==> mask[i] == head[i],
            forall|i: int| head.len() <= i < mask.len() ==> !mask[i],
        decreases n - mask.len(),
    {
        mask.push(false);
    }
    assert(mask@ =~= wanted);
    mask
}

/// Computes the word mask of `line`. The regular expression is compiled on
/// each call.
pub fn word_mask_for(line: &str) -> (mask: Vec<bool>)
    ensures
        mask@ == word_mask_of(line@),
{
    let split = split_by_regex(WORD_BOUNDARY, line);
    mark_words(&split, line.unicode_len())
}

/// A text that holds no underscore.
pub open spec fn has_no_underscore(s: Seq<char>) -> bool {
    forall|i: int| 0 <= i < s.len() ==> #[trigger] s[i] != '_'
}

/// The word mask that reading `line` needs. Only an underscore is read by
/// the words around it, so for a line without one a mask that marks no
/// character does as well as the word mask, and the line is not split.
pub open spec fn needed_mask(line: Seq<char>) -> Seq<bool> {
    if has_no_underscore(line) {
        Seq::new(line.len(), |i: int| false)
    } else {
        word_mask_of(line)
    }
}

/// Computes the word mask that reading `line` needs; `chars` are the
/// characters of `line`. No regular expression is compiled for a line
/// without an underscore.
pub fn needed_word_mask(line: &str, chars: &[char]) -> (mask: Vec<bool>)
    requires
        chars@ == line@,
    ensures
        mask@ == needed_mask(line@),
        mask.len() == chars.len(),
{
    let n: usize = chars.len();
    let first: usize = scan_run(chars, 0, CharClass::Except('_'));
    proof {
        lemma_run_end(chars@, 0, CharClass::Except('_'));
    }
    if first < n {
        assert(chars@[first as int] == '_');
        word_mask_for(line)
    } else {
        let mut mask: Vec<bool> = Vec::new();
        while mask.len() < n
            invariant
                mask.len() <= n,
                forall|i: int| 0 <= i < mask.len() ==> !mask[i],
            decreases n - mask.len(),
        {
            mask.push(false);
        }
        assert(mask@ =~= needed_mask(line@));
        mask
    }
}

} // verus!
