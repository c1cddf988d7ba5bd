//! Questions about text that the display asks: equality, containment,
//! lines and words.

use crate::formatter::{after_first_line, chars_of, lemma_line_end_bounds, lemma_line_end_is};
use crate::types::{char_is_whitespace, is_whitespace};
use vstd::prelude::*;
use vstd::string::{StrSliceExecFns, StringExecFns};

verus! {

/// Whether two texts are the same.
pub fn same_text(a: &str, b: &str) -> (same: bool)
    ensures
        same == (a@ == b@),
{
    String::from_str(a) == String::from_str(b)
}

/// Whether `pattern` stands in `text` at the offset `at`.
pub open spec fn occurs_at(text: Seq<char>, pattern: Seq<char>, at: int) -> bool {
    0 <= at && at + pattern.len() <= text.len() && text.subrange(at, at + pattern.len())
        == pattern
}

/// Whether `pattern` stands somewhere in `text`.
pub open spec fn has_substring(text: Seq<char>, pattern: Seq<char>) -> bool {
    exists|at: int| occurs_at(text, pattern, at)
}

/// Whether `text` holds `pattern`.
pub fn contains_text(text: &str, pattern: &str) -> (found: bool)
    ensures
        found == has_substring(text@, pattern@),
{
    let hay = chars_of(text);
    let needle = chars_of(pattern);
    let n = hay.len();
    let m = needle.len();
    if m > n {
        assert(!has_substring(text@, pattern@));
        return false;
    }
    let mut at: usize = 0;
    while at <= n - m
        invariant
            m <= n,
            n == hay@.len(),
            m == needle@.len(),
            hay@ == text@,
            needle@ == pattern@,
            at <= n - m + 1,
            forall|earlier: int| 0 <= earlier < at ==> !occurs_at(hay@, needle@, earlier),
        decreases n - m + 1 - at,
    {
        let mut k: usize = 0;
        while k < m && hay[at + k] == needle[k]
            invariant
                at + m <= n,
                k <= m,
                n == hay@.len(),
                m == needle@.len(),
                forall|j: int| 0 <= j < k ==> hay@[at + j] == needle@[j],
            decreases m - k,
        {
            k = k + 1;
        }
        if k == m {
            assert(hay@.subrange(at as int, at + m) =~= needle@);
            assert(occurs_at(text@, pattern@, at as int));
            return true;
        }
        assert(!occurs_at(hay@, needle@, at as int)) by {
            if occurs_at(hay@, needle@, at as int) {
                assert(hay@.subrange(at as int, at + m)[k as int] == needle@[k as int]);
            }
        }
        at = at + 1;
    }
    assert(!has_substring(text@, pattern@)) by {
        if has_substring(text@, pattern@) {
            let w = choose|w: int| occurs_at(text@, pattern@, w);
            assert(!occurs_at(hay@, needle@, w));
        }
    }
    false
}

/// The number of lines of `text`: a final line ending opens no new line.
pub open spec fn line_count(text: Seq<char>) -> nat
    decreases text.len(),
{
    if text.len() == 0 {
        0
    } else {
        proof {
            lemma_line_end_bounds(text);
        }
        1 + line_count(after_first_line(text))
    }
}

/// Counts the lines of `text`.
pub fn count_lines(text: &str) -> (count: usize)
    ensures
        count == line_count(text@),
{
    let chars = chars_of(text);
    let n = chars.len();
    let mut count: usize = 0;
    let mut start: usize = 0;
    assert(chars@.skip(0) =~= chars@);
    while start < n
        invariant
            n == chars@.len(),
            start <= n,
            count <= start,
            line_count(chars@) == count + line_count(chars@.skip(start as int)),
        decreases n - start,
    {
        let ghost rest = chars@.skip(start as int);
        let mut end: usize = start;
        while end < n && chars[end] != '\n'
            invariant
                n == chars@.len(),
                start <= end <= n,
                forall|i: int| start <= i < end ==> chars@[i] != '\n',
            decreases n - end,
        {
            end = end + 1;
        }
        proof {
            assert forall|i: int| 0 <= i < end - start implies rest[i] != '\n' by {
                assert(rest[i] == chars@[start + i]);
            }
            lemma_line_end_is(rest, end - start);
        }
        let next: usize = if end < n {
            end + 1
        } else {
            n
        };
        assert(after_first_line(rest) =~= chars@.skip(next as int));
        count = count + 1;
        start = next;
    }
    assert(chars@.skip(n as int) =~= Seq::<char>::empty());
    count
}

/// How many characters at the front of `text` are white space, or are
/// none if `space` is false.
pub open spec fn run_of(text: Seq<char>, space: bool) -> nat
    decreases text.len(),
{
    if text.len() == 0 || is_whitespace(text[0]) != space {
        0
    } else {
        1 + run_of(text.drop_first(), space)
    }
}

/// The first word of `text`: what stands between the white space at its
/// front and the next white space. A text without a word is its own
/// first word.
pub open spec fn first_word_of(text: Seq<char>) -> Seq<char> {
    let start = run_of(text, true);
    if start == text.len() {
        text
    } else {
        text.subrange(start as int, (start + run_of(text.skip(start as int), false)) as int)
    }
}

proof fn lemma_run_of(text: Seq<char>, space: bool, k: nat)
    requires
        k <= text.len(),
        forall|i: int| 0 <= i < k ==> is_whitespace(text[i]) == space,
        k == text.len() || is_whitespace(text[k as int]) != space,
    ensures
        run_of(text, space) == k,
    decreases k,
{
    if k > 0 {
        let tail = text.drop_first();
        assert forall|i: int| 0 <= i < k - 1 implies is_whitespace(tail[i]) == space by {
            assert(tail[i] == text[i + 1]);
        }
        if k < text.len() {
            assert(tail[k - 1] == text[k as int]);
        }
        lemma_run_of(tail, space, (k - 1) as nat);
    }
}

/// The first word of `text`.
pub fn first_word<'a>(text: &'a str) -> (word: &'a str)
    ensures
        word@ == first_word_of(text@),
{
    let chars = chars_of(text);
    let n = chars.len();
    let mut start: usize = 0;
    while start < n && char_is_whitespace(chars[start])
        invariant
            n == chars@.len(),
            start <= n,
            forall|i: int| 0 <= i < start ==> is_whitespace(chars@[i]),
        decreases n - start,
    {
        start = start + 1;
    }
    proof {
        lemma_run_of(chars@, true, start as nat);
    }
    if start == n {
        return text;
    }
    let mut end: usize = start;
    while end < n && !char_is_whitespace(chars[end])
        invariant
            n == chars@.len(),
            start <= end <= n,
            forall|i: int| start <= i < end ==> !is_whitespace(chars@[i]),
        decreases n - end,
    {
        end = end + 1;
    }
    proof {
        let rest = chars@.skip(start as int);
        assert forall|i: int| 0 <= i < end - start implies is_whitespace(rest[i]) == false by {
            assert(rest[i] == chars@[start + i]);
        }
        lemma_run_of(rest, false, (end - start) as nat);
    }
    text.substring_char(start, end)
}

} // verus!
