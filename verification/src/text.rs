//! Comparison, search and replacement on strings, stated over their characters.

use vstd::prelude::*;

verus! {

/// `pattern` stands in `text` at position `i`.
pub open spec fn occurs_at(text: Seq<char>, pattern: Seq<char>, i: int) -> bool {
    &&& 0 <= i
    &&& i + pattern.len() <= text.len()
    &&& text.subrange(i, i + pattern.len()) == pattern
}

/// `pattern` stands somewhere in `text`.
pub open spec fn occurs(text: Seq<char>, pattern: Seq<char>) -> bool {
    exists|i: int| #[trigger] occurs_at(text, pattern, i)
}

/// `text` with every match of `pattern`, taken from left to right and without
/// overlap, exchanged for `replacement`.
pub open spec fn replaced(
    text: Seq<char>,
    pattern: Seq<char>,
    replacement: Seq<char>,
) -> Seq<char>
    decreases text.len(),
{
    if pattern.len() == 0 || text.len() < pattern.len() {
        text
    } else if text.take(pattern.len() as int) == pattern {
        replacement + replaced(text.skip(pattern.len() as int), pattern, replacement)
    } else {
        seq![text[0]] + replaced(text.skip(1), pattern, replacement)
    }
}

/// Whether the two strings hold the same characters.
pub fn same_text(a: &str, b: &str) -> (same: bool)
    ensures
        same == (a@ == b@),
{
    let mut left = a.chars();
    let mut right = b.chars();
    let ghost mut n: int = 0;
    loop
        invariant
            0 <= n <= a@.len(),
            n <= b@.len(),
            a@.take(n) == b@.take(n),
            vstd::std_specs::iter::IteratorSpec::remaining(&left) == a@.skip(n),
            vstd::std_specs::iter::IteratorSpec::remaining(&right) == b@.skip(n),
        decreases a@.len() - n,
    {
        let c = left.next();
        let d = right.next();
        match (c, d) {
            (Some(c), Some(d)) => {
                if c != d {
                    assert(a@[n] == c && b@[n] == d);
                    return false;
                }
                proof {
                    assert(a@.take(n + 1) =~= a@.take(n).push(a@[n]));
                    assert(b@.take(n + 1) =~= b@.take(n).push(b@[n]));
                    n = n + 1;
                }
            },
            (None, None) => {
                assert(a@.take(n) =~= a@);
                assert(b@.take(n) =~= b@);
                return true;
            },
            _ => {
                return false;
            },
        }
    }
}

/// The characters of `s`.
fn characters(s: &str) -> (chars: Vec<char>)
    ensures
        chars@ == s@,
{
    let mut chars: Vec<char> = Vec::new();
    let mut rest = s.chars();
    loop
        invariant
            chars@.len() <= s@.len(),
            chars@ == s@.take(chars@.len() as int),
            vstd::std_specs::iter::IteratorSpec::remaining(&rest) == s@.skip(
                chars@.len() as int,
            ),
        decreases s@.len() - chars@.len(),
    {
        match rest.next() {
            Some(c) => {
                assert(s@.take((chars@.len() + 1) as int) =~= s@.take(chars@.len() as int).push(
                    s@[chars@.len() as int],
                ));
                chars.push(c);
            },
            None => {
                assert(s@.take(chars@.len() as int) =~= s@);
                return chars;
            },
        }
    }
}

/// Whether `pattern` stands in `text` at position `i`.
fn matches_at(text: &Vec<char>, pattern: &Vec<char>, i: usize) -> (found: bool)
    requires
        i + pattern@.len() <= text@.len(),
    ensures
        found == occurs_at(text@, pattern@, i as int),
{
    let mut j: usize = 0;
    while j < pattern.len()
        invariant
            j <= pattern@.len(),
            i + pattern@.len() <= text.len(),
            forall|k: int| 0 <= k < j ==> text@[i + k] == #[trigger] pattern@[k],
        decreases pattern@.len() - j,
    {
        if text[i + j] != pattern[j] {
            assert(text@.subrange(i as int, i + pattern@.len())[j as int] != pattern@[j as int]);
            return false;
        }
        j += 1;
    }
    assert(text@.subrange(i as int, i + pattern@.len()) =~= pattern@);
    true
}

/// Whether `pattern` stands somewhere in `text`.
pub fn contains_text(text: &str, pattern: &str) -> (found: bool)
    ensures
        found == occurs(text@, pattern@),
{
    let chars = characters(text);
    let wanted = characters(pattern);
    if chars.len() < wanted.len() {
        return false;
    }
    let last: usize = chars.len() - wanted.len();
    let mut i: usize = 0;
    loop
        invariant
            chars@ == text@,
            wanted@ == pattern@,
            last == chars@.len() - wanted@.len(),
            i <= last,
            forall|k: int| 0 <= k < i ==> !#[trigger] occurs_at(text@, pattern@, k),
        decreases last - i,
    {
        if matches_at(&chars, &wanted, i) {
            return true;
        }
        if i == last {
            return false;
        }
        i += 1;
    }
}

/// `text` with every match of `pattern` exchanged for `replacement`.
pub fn replace_text(text: &str, pattern: &str, replacement: &str) -> (result: String)
    requires
        pattern@.len() > 0,
    ensures
        result@ == replaced(text@, pattern@, replacement@),
{
    let chars = characters(text);
    let wanted = characters(pattern);
    let mut result = String::new();
    let mut copied: usize = 0;
    let mut i: usize = 0;
    assert(text@.skip(0) =~= text@);
    assert(text@.subrange(0, 0) =~= Seq::<char>::empty());
    assert(replaced(text@, pattern@, replacement@) =~= result@ + text@.subrange(0, 0) + replaced(
        text@.skip(0),
        pattern@,
        replacement@,
    ));
    while wanted.len() <= chars.len() - i
        invariant
            chars@ == text@,
            wanted@ == pattern@,
            pattern@.len() > 0,
            copied <= i <= chars@.len(),
            replaced(text@, pattern@, replacement@) == result@ + text@.subrange(
                copied as int,
                i as int,
            ) + replaced(text@.skip(i as int), pattern@, replacement@),
        decreases chars@.len() - i,
    {
        let ghost rest = text@.skip(i as int);
        let ghost before = result@;
        assert(rest.take(pattern@.len() as int) =~= text@.subrange(
            i as int,
            i + pattern@.len(),
        ));
        if matches_at(&chars, &wanted, i) {
            result.append(text.substring_char(copied, i));
            result.append(replacement);
            let ghost from = copied;
            let ghost at = i;
            i += wanted.len();
            copied = i;
            proof {
                assert(rest.skip(pattern@.len() as int) =~= text@.skip(i as int));
                let tail = replaced(text@.skip(i as int), pattern@, replacement@);
                assert(text@.subrange(i as int, i as int) =~= Seq::<char>::empty());
                assert(before + text@.subrange(from as int, at as int) + (replacement@ + tail)
                    =~= result@ + text@.subrange(i as int, i as int) + tail);
            }
        } else {
            let ghost at = i;
            i += 1;
            proof {
                assert(rest.skip(1) =~= text@.skip(i as int));
                let tail = replaced(text@.skip(i as int), pattern@, replacement@);
                assert(before + text@.subrange(copied as int, at as int) + (seq![rest[0]] + tail)
                    =~= before + text@.subrange(copied as int, i as int) + tail);
            }
        }
    }
    let ghost before = result@;
    result.append(text.substring_char(copied, chars.len()));
    assert(before + text@.subrange(copied as int, i as int) + text@.skip(i as int) =~= result@);
    result
}

/// A text without the pattern stays as it is.
pub proof fn lemma_replaced_without_match(
    text: Seq<char>,
    pattern: Seq<char>,
    replacement: Seq<char>,
)
    requires
        !occurs(text, pattern),
    ensures
        replaced(text, pattern, replacement) == text,
    decreases text.len(),
{
    if pattern.len() > 0 && text.len() >= pattern.len() {
        let m = pattern.len() as int;
        assert(text.take(m) =~= text.subrange(0, m));
        assert(!occurs_at(text, pattern, 0));
        let rest = text.skip(1);
        assert forall|i: int| !#[trigger] occurs_at(rest, pattern, i) by {
            if occurs_at(rest, pattern, i) {
                assert(text.subrange(i + 1, i + 1 + m) =~= rest.subrange(i, i + m));
                assert(occurs_at(text, pattern, i + 1));
            }
        }
        lemma_replaced_without_match(rest, pattern, replacement);
        assert(seq![text[0]] + rest =~= text);
    }
}

/// `replacement` cannot take part in a match of `pattern`: none lies in it, none starts in
/// it, none ends in it, and none reaches across it.
pub open spec fn fences(replacement: Seq<char>, pattern: Seq<char>) -> bool {
    &&& !occurs(replacement, pattern)
    &&& !occurs(pattern, replacement)
    &&& forall|k: int|
        0 < k < pattern.len() ==> !(#[trigger] pattern.take(k)).is_suffix_of(replacement)
    &&& forall|k: int|
        0 < k < pattern.len() ==> !(#[trigger] pattern.skip(k)).is_prefix_of(replacement)
}

/// The part of a match that follows its first `k` characters, found at the start of
/// the replaced text, stood at the start of the text itself.
proof fn lemma_match_end_is_old(
    text: Seq<char>,
    pattern: Seq<char>,
    replacement: Seq<char>,
    k: int,
)
    requires
        fences(replacement, pattern),
        0 < k <= pattern.len(),
        pattern.skip(k).is_prefix_of(replaced(text, pattern, replacement)),
    ensures
        pattern.skip(k).is_prefix_of(text),
    decreases text.len(),
{
    let m = pattern.len() as int;
    let end = pattern.skip(k);
    let result = replaced(text, pattern, replacement);
    if k < m && text.len() >= m {
        if text.take(m) == pattern {
            let n = replacement.len() as int;
            assert(result.take(n) =~= replacement);
            if end.len() <= n {
                assert(end =~= replacement.take(end.len() as int));
                assert(end.is_prefix_of(replacement));
            } else {
                assert(pattern.subrange(k, k + n) =~= replacement) by {
                    assert forall|i: int| 0 <= i < n implies #[trigger] pattern.subrange(
                        k,
                        k + n,
                    )[i] == replacement[i] by {
                        assert(end[i] == result[i]);
                    }
                }
                assert(occurs_at(pattern, replacement, k));
            }
        } else {
            let rest = replaced(text.skip(1), pattern, replacement);
            assert(end[0] == result[0]);
            assert(result.skip(1) =~= rest);
            assert forall|i: int| 0 <= i < pattern.skip(k + 1).len() implies #[trigger] pattern.skip(
                k + 1,
            )[i] == rest[i] by {
                assert(end[i + 1] == result[i + 1]);
            }
            assert(pattern.skip(k + 1).is_prefix_of(rest));
            lemma_match_end_is_old(text.skip(1), pattern, replacement, k + 1);
            assert forall|i: int| 0 <= i < end.len() implies #[trigger] end[i] == text[i] by {
                if i > 0 {
                    assert(pattern.skip(k + 1)[i - 1] == text.skip(1)[i - 1]);
                }
            }
            assert(end =~= text.take(m - k));
        }
    }
}

/// Replacing by a text that fences the pattern off leaves no match behind, neither
/// inside the replacement nor across its borders.
pub proof fn lemma_replaced_leaves_no_match(
    text: Seq<char>,
    pattern: Seq<char>,
    replacement: Seq<char>,
)
    requires
        pattern.len() > 0,
        fences(replacement, pattern),
    ensures
        !occurs(replaced(text, pattern, replacement), pattern),
    decreases text.len(),
{
    let m = pattern.len() as int;
    let result = replaced(text, pattern, replacement);
    if text.len() >= m {
        assert forall|i: int| !#[trigger] occurs_at(result, pattern, i) by {
            if occurs_at(result, pattern, i) {
                let (head, tail) = if text.take(m) == pattern {
                    (replacement, text.skip(m))
                } else {
                    (seq![text[0]], text.skip(1))
                };
                let rest = replaced(tail, pattern, replacement);
                assert(result == head + rest);
                lemma_replaced_leaves_no_match(tail, pattern, replacement);
                let h = head.len() as int;
                if i >= h {
                    assert(rest.subrange(i - h, i - h + m) =~= result.subrange(i, i + m));
                    assert(occurs_at(rest, pattern, i - h));
                } else if text.take(m) == pattern {
                    if i + m <= h {
                        assert(replacement.subrange(i, i + m) =~= result.subrange(i, i + m));
                        assert(occurs_at(replacement, pattern, i));
                    } else {
                        let k = h - i;
                        assert forall|j: int| 0 <= j < k implies #[trigger] pattern.take(k)[j]
                            == replacement[i + j] by {
                            assert(result.subrange(i, i + m)[j] == pattern[j]);
                        }
                        assert(pattern.take(k) =~= replacement.subrange(h - k, h));
                        assert(pattern.take(k).is_suffix_of(replacement));
                    }
                } else {
                    assert(result.subrange(0, m)[0] == pattern[0]);
                    assert forall|j: int| 0 <= j < m - 1 implies #[trigger] pattern.skip(1)[j]
                        == rest[j] by {
                        assert(result.subrange(0, m)[j + 1] == pattern[j + 1]);
                    }
                    assert(pattern.skip(1) =~= rest.take(m - 1));
                    lemma_match_end_is_old(tail, pattern, replacement, 1);
                    assert forall|j: int| 0 <= j < m implies #[trigger] text.take(m)[j]
                        == pattern[j] by {
                        if j > 0 {
                            assert(pattern.skip(1)[j - 1] == tail[j - 1]);
                        }
                    }
                    assert(text.take(m) =~= pattern);
                }
            }
        }
    }
}

/// One match between two texts that are too short to hold another.
proof fn lemma_single_match(
    before: Seq<char>,
    pattern: Seq<char>,
    after: Seq<char>,
    replacement: Seq<char>,
)
    requires
        before.len() < pattern.len(),
        after.len() < pattern.len(),
        forall|i: int| 0 < i < pattern.len() ==> #[trigger] pattern[i] != pattern[0],
    ensures
        replaced(before + pattern + after, pattern, replacement) == before + replacement + after,
    decreases before.len(),
{
    let m = pattern.len() as int;
    let text = before + pattern + after;
    if before.len() == 0 {
        assert(text.take(m) =~= pattern);
        assert(text.skip(m) =~= after);
        assert(replaced(after, pattern, replacement) == after);
        assert(replacement + after =~= before + replacement + after);
    } else {
        assert(text.take(m)[before.len() as int] == pattern[0]);
        assert(text.take(m) != pattern);
        assert(text.skip(1) =~= before.skip(1) + pattern + after);
        lemma_single_match(before.skip(1), pattern, after, replacement);
        assert(seq![text[0]] + (before.skip(1) + replacement + after) =~= before + replacement
            + after);
    }
}

/// A text that does not fence the pattern off leaves a match behind in some text.
pub proof fn lemma_match_left_without_fence(pattern: Seq<char>, replacement: Seq<char>) -> (text:
    Seq<char>)
    requires
        pattern.len() > 1,
        forall|i: int| 0 < i < pattern.len() ==> #[trigger] pattern[i] != pattern[0],
        !fences(replacement, pattern),
    ensures
        occurs(replaced(text, pattern, replacement), pattern),
{
    let m = pattern.len() as int;
    let n = replacement.len() as int;
    let none = Seq::<char>::empty();
    if occurs(replacement, pattern) {
        lemma_single_match(none, pattern, none, replacement);
        assert(none + replacement + none =~= replacement);
        none + pattern + none
    } else if occurs(pattern, replacement) {
        let at = if n == 0 {
            1
        } else {
            choose|i: int| occurs_at(pattern, replacement, i)
        };
        if n == 0 {
            assert(pattern.subrange(1, 1) =~= replacement);
        }
        assert(occurs_at(pattern, replacement, at));
        let before = pattern.take(at);
        let after = pattern.skip(at + n);
        lemma_single_match(before, pattern, after, replacement);
        assert(before + pattern.subrange(at, at + n) + after =~= pattern);
        assert(pattern.subrange(0, m) =~= pattern);
        assert(occurs_at(pattern, pattern, 0));
        before + pattern + after
    } else if exists|k: int|
        0 < k < m && (#[trigger] pattern.take(k)).is_suffix_of(replacement) {
        let k = choose|k: int|
            0 < k < m && (#[trigger] pattern.take(k)).is_suffix_of(replacement);
        let after = pattern.skip(k);
        lemma_single_match(none, pattern, after, replacement);
        let result = none + replacement + after;
        assert(result.subrange(n - k, n - k + m) =~= pattern) by {
            assert(pattern.take(k) =~= replacement.subrange(n - k, n));
            assert forall|i: int| 0 <= i < m implies #[trigger] result.subrange(
                n - k,
                n - k + m,
            )[i] == pattern[i] by {
                if i < k {
                    assert(pattern.take(k)[i] == replacement.subrange(n - k, n)[i]);
                }
            }
        }
        assert(occurs_at(result, pattern, n - k));
        none + pattern + after
    } else {
        let k = choose|k: int|
            0 < k < m && (#[trigger] pattern.skip(k)).is_prefix_of(replacement);
        let before = pattern.take(k);
        lemma_single_match(before, pattern, none, replacement);
        let result = before + replacement + none;
        assert(result.subrange(0, m) =~= pattern) by {
            assert forall|i: int| 0 <= i < m implies #[trigger] result.subrange(0, m)[i]
                == pattern[i] by {
                if i >= k {
                    assert(pattern.skip(k)[i - k] == replacement[i - k]);
                }
            }
        }
        assert(occurs_at(result, pattern, 0));
        before + pattern + none
    }
}

} // verus!
