//! Case-insensitive `LIKE` patterns over extension names.
//!
//! A pattern is a string in which `%` stands for any run of characters, `_`
//! for any single character, and `\` makes the character after it literal.
//! Letters are compared without regard to ASCII case.

use vstd::prelude::*;

verus! {

/// The pattern character that stands for any run of characters.
pub const ANY_RUN: char = '%';

/// The pattern character that stands for exactly one character.
pub const ANY_ONE: char = '_';

/// The pattern character that makes the one after it literal.
pub const ESCAPE: char = '\\';

/// The letter that `c` is compared as: an upper-case ASCII letter as its
/// lower-case counterpart, every other character as itself.
pub open spec fn folded(c: char) -> char {
    if 'A' <= c && c <= 'Z' {
        ((c as u8) + 32) as char
    } else {
        c
    }
}

/// Whether two characters are the same letter once case is set aside.
pub open spec fn same_letter(a: char, b: char) -> bool {
    folded(a) == folded(b)
}

/// Whether `c` has a meaning of its own in a pattern.
pub open spec fn is_special(c: char) -> bool {
    c == ANY_RUN || c == ANY_ONE || c == ESCAPE
}

/// The pattern that matches the single character `c` literally.
pub open spec fn escaped_char(c: char) -> Seq<char> {
    if is_special(c) {
        seq![ESCAPE, c]
    } else {
        seq![c]
    }
}

/// The pattern that matches `text` literally: every special character of
/// `text` is preceded by the escape character.
pub open spec fn escaped(text: Seq<char>) -> Seq<char>
    decreases text.len(),
{
    if text.len() == 0 {
        Seq::empty()
    } else {
        escaped_char(text[0]) + escaped(text.skip(1))
    }
}

/// The pattern built for a name filter: the filter taken literally, with a
/// run of arbitrary characters allowed before and after it.
pub open spec fn fuzzy_pattern(filter: Seq<char>) -> Seq<char> {
    seq![ANY_RUN] + escaped(filter) + seq![ANY_RUN]
}

/// Whether the whole of `text` matches `pattern`.
///
/// An escape character at the very end of a pattern escapes nothing; such a
/// pattern matches no text.
pub open spec fn like_match(pattern: Seq<char>, text: Seq<char>) -> bool
    decreases pattern.len(), text.len(),
{
    if pattern.len() == 0 {
        text.len() == 0
    } else if pattern[0] == ANY_RUN {
        like_match(pattern.skip(1), text) || (text.len() > 0 && like_match(
            pattern,
            text.skip(1),
        ))
    } else if pattern[0] == ANY_ONE {
        text.len() > 0 && like_match(pattern.skip(1), text.skip(1))
    } else if pattern[0] == ESCAPE {
        pattern.len() >= 2 && text.len() > 0 && same_letter(pattern[1], text[0]) && like_match(
            pattern.skip(2),
            text.skip(1),
        )
    } else {
        text.len() > 0 && same_letter(pattern[0], text[0]) && like_match(
            pattern.skip(1),
            text.skip(1),
        )
    }
}

/// Whether `text` begins with `needle`, letter by letter, case set aside.
pub open spec fn starts_with_folded(text: Seq<char>, needle: Seq<char>) -> bool {
    &&& needle.len() <= text.len()
    &&& forall|i: int| 0 <= i < needle.len() ==> same_letter(#[trigger] needle[i], text[i])
}

/// Whether two texts are the same letter by letter, case set aside.
pub open spec fn same_letters(a: Seq<char>, b: Seq<char>) -> bool {
    &&& a.len() == b.len()
    &&& forall|i: int| 0 <= i < a.len() ==> same_letter(#[trigger] a[i], b[i])
}

/// Whether `needle` occurs somewhere in `text`, case set aside.
pub open spec fn contains_folded(text: Seq<char>, needle: Seq<char>) -> bool {
    exists|k: int| 0 <= k <= text.len() && starts_with_folded(#[trigger] text.skip(k), needle)
}

/// `String::push` appends the character to the end of the string.
pub assume_specification[ String::push ](s: &mut String, ch: char)
    ensures
        final(s)@ == old(s)@.push(ch),
;

/// Folds an upper-case ASCII letter to lower case and leaves every other
/// character as it is.
pub fn fold(c: char) -> (r: char)
    ensures
        r == folded(c),
{
    if 'A' <= c && c <= 'Z' {
        ((c as u8) + 32) as char
    } else {
        c
    }
}

/// Escaping distributes over appending one more character.
proof fn lemma_escaped_push(text: Seq<char>, c: char)
    ensures
        escaped(text.push(c)) == escaped(text) + escaped_char(c),
    decreases text.len(),
{
    if text.len() == 0 {
        assert(text.push(c).skip(1) =~= Seq::<char>::empty());
        assert(escaped(text.push(c).skip(1)) =~= Seq::<char>::empty());
        assert(escaped(text.push(c)) =~= escaped(text) + escaped_char(c));
    } else {
        lemma_escaped_push(text.skip(1), c);
        assert(text.push(c).skip(1) =~= text.skip(1).push(c));
        assert(escaped(text.push(c)) =~= escaped(text) + escaped_char(c));
    }
}

/// Builds the pattern for a name filter: `%`, then the filter with each of
/// its special characters escaped, then `%`.
pub fn fuzzy_like_string(filter: &str) -> (pattern: String)
    ensures
        pattern@ == fuzzy_pattern(filter@),
{
    let mut pattern = String::new();
    pattern.push(ANY_RUN);
    for c in it: filter.chars()
        invariant
            it.seq() == filter@,
            pattern@ == seq![ANY_RUN] + escaped(filter@.take(it.index())),
    {
        proof {
            lemma_escaped_push(filter@.take(it.index()), c);
            assert(filter@.take(it.index() + 1) =~= filter@.take(it.index()).push(c));
        }
        if c == ANY_RUN || c == ANY_ONE || c == ESCAPE {
            pattern.push(ESCAPE);
        }
        pattern.push(c);
        assert(pattern@ =~= seq![ANY_RUN] + escaped(filter@.take(it.index() + 1)));
    }
    assert(filter@.take(filter@.len() as int) =~= filter@);
    pattern.push(ANY_RUN);
    pattern
}

/// The characters of `s`, in order.
pub fn chars_of(s: &str) -> (chars: Vec<char>)
    ensures
        chars@ == s@,
{
    let mut chars: Vec<char> = Vec::new();
    for c in it: s.chars()
        invariant
            it.seq() == s@,
            chars@ == s@.take(it.index()),
    {
        chars.push(c);
        assert(s@.take(it.index() + 1) =~= s@.take(it.index()).push(c));
    }
    assert(s@.take(s@.len() as int) =~= s@);
    chars
}

/// Whether `row` tells, for every suffix of `text`, whether that suffix
/// matches the suffix of `pattern` that starts at `from`.
spec fn is_match_row(row: Seq<bool>, pattern: Seq<char>, text: Seq<char>, from: int) -> bool {
    &&& row.len() == text.len() + 1
    &&& forall|j: int|
        0 <= j <= text.len() ==> #[trigger] row[j] == like_match(pattern.skip(from), text.skip(j))
}

/// A row for a text of `n` characters that holds `last` for the empty
/// suffix and `false` for every other.
fn row_ending_in(n: usize, last: bool) -> (row: Vec<bool>)
    ensures
        row@.len() == n + 1,
        row@[n as int] == last,
        forall|k: int| 0 <= k < n ==> !#[trigger] row@[k],
{
    let mut row: Vec<bool> = Vec::new();
    let mut j: usize = 0;
    while j < n
        invariant
            j <= n,
            row@.len() == j,
            forall|k: int| 0 <= k < j ==> !#[trigger] row@[k],
        decreases n - j,
    {
        row.push(false);
        j += 1;
    }
    row.push(last);
    row
}

/// The row for the empty pattern: only the empty suffix of the text matches.
fn end_row(pattern: &Vec<char>, text: &Vec<char>) -> (row: Vec<bool>)
    ensures
        is_match_row(row@, pattern@, text@, pattern@.len() as int),
{
    let row = row_ending_in(text.len(), true);
    assert forall|k: int| 0 <= k <= text@.len() implies #[trigger] row@[k] == like_match(
        pattern@.skip(pattern@.len() as int),
        text@.skip(k),
    ) by {
        assert(pattern@.skip(pattern@.len() as int).len() == 0);
        assert(text@.skip(k).len() == text@.len() - k);
    }
    row
}

/// The row for the pattern suffix that starts at `from`, computed from the
/// rows of the two suffixes after it.
fn match_row(
    pattern: &Vec<char>,
    text: &Vec<char>,
    from: usize,
    next: &Vec<bool>,
    after: &Vec<bool>,
) -> (row: Vec<bool>)
    requires
        from < pattern@.len(),
        is_match_row(next@, pattern@, text@, from + 1),
        from + 2 <= pattern@.len() ==> is_match_row(after@, pattern@, text@, from + 2),
    ensures
        is_match_row(row@, pattern@, text@, from as int),
{
    let n = text.len();
    let m = pattern.len();
    let c = pattern[from];
    let ghost p = pattern@.skip(from as int);
    proof {
        assert(p.len() > 0 && p[0] == c);
        assert(p.skip(1) =~= pattern@.skip(from + 1));
        assert(p.len() == pattern@.len() - from);
        if p.len() >= 2 {
            assert(p.skip(2) =~= pattern@.skip(from + 2));
        }
    }
    let escaped_letter = c == ESCAPE && from + 1 < m;
    let literal = if escaped_letter {
        fold(pattern[from + 1])
    } else {
        fold(c)
    };
    let mut row = row_ending_in(n, c == ANY_RUN && next[n]);
    proof {
        assert(text@.skip(n as int).len() == 0);
    }
    let mut j: usize = n;
    while j > 0
        invariant
            n == text@.len(),
            j <= n,
            row@.len() == n + 1,
            p == pattern@.skip(from as int),
            p.len() > 0 && p[0] == c,
            p.len() == pattern@.len() - from,
            p.skip(1) == pattern@.skip(from + 1),
            p.len() >= 2 ==> p.skip(2) == pattern@.skip(from + 2),
            from < pattern@.len(),
            escaped_letter == (c == ESCAPE && from + 1 < pattern@.len()),
            escaped_letter ==> literal == folded(pattern@[from + 1]),
            !escaped_letter ==> literal == folded(c),
            is_match_row(next@, pattern@, text@, from + 1),
            from + 2 <= pattern@.len() ==> is_match_row(after@, pattern@, text@, from + 2),
            forall|k: int| j <= k <= n ==> #[trigger] row@[k] == like_match(p, text@.skip(k)),
        decreases j,
    {
        j -= 1;
        let same = fold(text[j]) == literal;
        let here = if c == ANY_RUN {
            next[j] || row[j + 1]
        } else if c == ANY_ONE {
            next[j + 1]
        } else if c == ESCAPE {
            escaped_letter && same && after[j + 1]
        } else {
            same && next[j + 1]
        };
        proof {
            let t = text@.skip(j as int);
            assert(t.len() > 0 && t[0] == text@[j as int]);
            assert(t.skip(1) =~= text@.skip(j + 1));
            assert(p.len() >= 2 ==> p[1] == pattern@[from + 1]);
            assert(here == like_match(p, t));
        }
        row.set(j, here);
    }
    row
}

/// Whether the whole of `text` matches the pattern made of the characters
/// `pattern`, case set aside.
pub fn like_matches_chars(pattern: &Vec<char>, text: &str) -> (matched: bool)
    ensures
        matched == like_match(pattern@, text@),
{
    let t = chars_of(text);
    let mut next = end_row(pattern, &t);
    let mut after: Vec<bool> = Vec::new();
    let mut from: usize = pattern.len();
    while from > 0
        invariant
            t@ == text@,
            from <= pattern@.len(),
            is_match_row(next@, pattern@, t@, from as int),
            from + 1 <= pattern@.len() ==> is_match_row(after@, pattern@, t@, from + 1),
        decreases from,
    {
        from -= 1;
        let row = match_row(pattern, &t, from, &next, &after);
        after = next;
        next = row;
    }
    assert(pattern@.skip(0) =~= pattern@);
    assert(t@.skip(0) =~= t@);
    next[0]
}

/// Whether the whole of `text` matches `pattern`, case set aside.
pub fn like_matches(pattern: &str, text: &str) -> (matched: bool)
    ensures
        matched == like_match(pattern@, text@),
{
    like_matches_chars(&chars_of(pattern), text)
}

/// Matching does not see the case of the text: two texts that differ only
/// in the case of their letters match the same patterns.
pub proof fn lemma_like_match_ignores_case(pattern: Seq<char>, a: Seq<char>, b: Seq<char>)
    requires
        same_letters(a, b),
    ensures
        like_match(pattern, a) == like_match(pattern, b),
    decreases pattern.len(), a.len(),
{
    if pattern.len() > 0 {
        if a.len() > 0 {
            assert(same_letter(a[0], b[0]));
            assert(same_letters(a.skip(1), b.skip(1))) by {
                assert forall|i: int| 0 <= i < a.skip(1).len() implies same_letter(
                    #[trigger] a.skip(1)[i],
                    b.skip(1)[i],
                ) by {
                    assert(same_letter(a[i + 1], b[i + 1]));
                }
            }
        }
        if pattern[0] == ANY_RUN {
            lemma_like_match_ignores_case(pattern.skip(1), a, b);
            if a.len() > 0 {
                lemma_like_match_ignores_case(pattern, a.skip(1), b.skip(1));
            }
        } else if pattern[0] == ESCAPE {
            if pattern.len() >= 2 && a.len() > 0 {
                lemma_like_match_ignores_case(pattern.skip(2), a.skip(1), b.skip(1));
            }
        } else if a.len() > 0 {
            lemma_like_match_ignores_case(pattern.skip(1), a.skip(1), b.skip(1));
        }
    }
}

/// A lone `%` matches every text.
proof fn lemma_any_run_matches_all(text: Seq<char>)
    ensures
        like_match(seq![ANY_RUN], text),
    decreases text.len(),
{
    let p = seq![ANY_RUN];
    assert(p[0] == ANY_RUN && p.skip(1).len() == 0);
    if text.len() > 0 {
        lemma_any_run_matches_all(text.skip(1));
    } else {
        assert(like_match(p.skip(1), text));
    }
}

/// A pattern that begins with an escaped text matches exactly the texts that
/// begin with that text, case set aside, and whose remainder matches the
/// rest of the pattern.
proof fn lemma_escaped_matches_prefix(needle: Seq<char>, rest: Seq<char>, text: Seq<char>)
    ensures
        like_match(escaped(needle) + rest, text) <==> (starts_with_folded(text, needle)
            && like_match(rest, text.skip(needle.len() as int))),
    decreases needle.len(),
{
    let p = escaped(needle) + rest;
    if needle.len() == 0 {
        assert(p =~= rest);
        assert(text.skip(0) =~= text);
    } else {
        let c = needle[0];
        let tail = needle.skip(1);
        let q = escaped(tail) + rest;
        assert(p =~= escaped_char(c) + q);
        if is_special(c) {
            assert(p[0] == ESCAPE && p[1] == c && p.len() >= 2);
            assert(p.skip(2) =~= q);
        } else {
            assert(p[0] == c);
            assert(p.skip(1) =~= q);
        }
        assert(like_match(p, text) <==> (text.len() > 0 && same_letter(c, text[0]) && like_match(
            q,
            text.skip(1),
        )));
        if text.len() > 0 {
            let t = text.skip(1);
            lemma_escaped_matches_prefix(tail, rest, t);
            if tail.len() <= t.len() {
                assert(t.skip(tail.len() as int) =~= text.skip(needle.len() as int));
            }
            if starts_with_folded(t, tail) && same_letter(c, text[0]) {
                assert forall|i: int| 0 <= i < needle.len() implies same_letter(
                    #[trigger] needle[i],
                    text[i],
                ) by {
                    if i > 0 {
                        assert(needle[i] == tail[i - 1]);
                        assert(text[i] == t[i - 1]);
                    }
                }
            }
            if starts_with_folded(text, needle) {
                assert forall|i: int| 0 <= i < tail.len() implies same_letter(
                    #[trigger] tail[i],
                    t[i],
                ) by {
                    assert(tail[i] == needle[i + 1]);
                    assert(t[i] == text[i + 1]);
                }
            }
        }
    }
}

/// A pattern that begins with `%` matches exactly the texts of which some
/// suffix matches the rest of the pattern.
proof fn lemma_leading_any_run(rest: Seq<char>, text: Seq<char>)
    ensures
        like_match(seq![ANY_RUN] + rest, text) <==> exists|k: int|
            0 <= k <= text.len() && like_match(rest, #[trigger] text.skip(k)),
    decreases text.len(),
{
    let p = seq![ANY_RUN] + rest;
    assert(p[0] == ANY_RUN);
    assert(p.skip(1) =~= rest);
    assert(text.skip(0) =~= text);
    if text.len() > 0 {
        let t = text.skip(1);
        lemma_leading_any_run(rest, t);
        if like_match(p, t) {
            let k = choose|k: int| 0 <= k <= t.len() && like_match(rest, #[trigger] t.skip(k));
            assert(t.skip(k) =~= text.skip(k + 1));
        }
        if exists|k: int| 0 <= k <= text.len() && like_match(rest, #[trigger] text.skip(k)) {
            let k = choose|k: int|
                0 <= k <= text.len() && like_match(rest, #[trigger] text.skip(k));
            if k > 0 {
                assert(t.skip(k - 1) =~= text.skip(k));
            }
        }
    } else {
        assert forall|k: int| 0 <= k <= text.len() implies #[trigger] text.skip(k) == text by {
            assert(text.skip(k) =~= text);
        }
    }
}

/// The pattern built for a filter matches exactly the names in which the
/// filter occurs as a run of consecutive letters, case set aside. A `%`, `_`
/// or `\` in the filter stands for itself and for nothing else.
pub proof fn lemma_fuzzy_pattern_finds_substring(filter: Seq<char>, name: Seq<char>)
    ensures
        like_match(fuzzy_pattern(filter), name) <==> contains_folded(name, filter),
{
    let rest = escaped(filter) + seq![ANY_RUN];
    assert(fuzzy_pattern(filter) =~= seq![ANY_RUN] + rest);
    lemma_leading_any_run(rest, name);
    assert forall|k: int| 0 <= k <= name.len() implies (like_match(rest, #[trigger] name.skip(k))
        <==> starts_with_folded(name.skip(k), filter)) by {
        lemma_escaped_matches_prefix(filter, seq![ANY_RUN], name.skip(k));
        lemma_any_run_matches_all(name.skip(k).skip(filter.len() as int));
    }
}

/// A name that is the filter itself is matched by the filter's pattern,
/// whatever characters the filter holds.
pub proof fn lemma_fuzzy_pattern_matches_filter(filter: Seq<char>)
    ensures
        like_match(fuzzy_pattern(filter), filter),
{
    lemma_fuzzy_pattern_finds_substring(filter, filter);
    assert(filter.skip(0) =~= filter);
    assert(starts_with_folded(filter.skip(0), filter));
}

} // verus!
