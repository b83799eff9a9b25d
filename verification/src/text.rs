//! Characters of a line: white space, searching, and words.

use vstd::prelude::*;

verus! {

/// Whether Unicode counts `c` as white space.
pub open spec fn is_space(c: char) -> bool {
    ||| '\u{9}' <= c <= '\u{d}'
    ||| c == ' '
    ||| c == '\u{85}'
    ||| c == '\u{a0}'
    ||| c == '\u{1680}'
    ||| '\u{2000}' <= c <= '\u{200a}'
    ||| c == '\u{2028}'
    ||| c == '\u{2029}'
    ||| c == '\u{202f}'
    ||| c == '\u{205f}'
    ||| c == '\u{3000}'
}

/// Decides [`is_space`].
pub fn is_whitespace(c: char) -> (b: bool)
    ensures
        b == is_space(c),
{
    ('\u{9}' <= c && c <= '\u{d}') || c == ' ' || c == '\u{85}' || c == '\u{a0}' || c
        == '\u{1680}' || ('\u{2000}' <= c && c <= '\u{200a}') || c == '\u{2028}' || c
        == '\u{2029}' || c == '\u{202f}' || c == '\u{205f}' || c == '\u{3000}'
}

/// The characters of `s`, in order.
pub fn chars_of(s: &str) -> (v: Vec<char>)
    ensures
        v@ == s@,
{
    let mut v: Vec<char> = Vec::new();
    for c in it: s.chars()
        invariant
            v@ == it.seq().take(it.index() as int),
    {
        v.push(c);
    }
    v
}

/// Whether `needle` stands in `hay` at index `i`.
pub open spec fn occurs_at(hay: Seq<char>, needle: Seq<char>, i: int) -> bool {
    0 <= i && i + needle.len() <= hay.len() && hay.subrange(i, i + needle.len()) == needle
}

/// Whether `i` is where `needle` first stands in `hay`.
pub open spec fn is_first_occurrence(hay: Seq<char>, needle: Seq<char>, i: int) -> bool {
    occurs_at(hay, needle, i) && forall|j: int| 0 <= j < i ==> !occurs_at(hay, needle, j)
}

/// Where `needle` first stands in `hay`, if it stands there at all.
pub open spec fn first_occurrence(hay: Seq<char>, needle: Seq<char>) -> Option<int> {
    if exists|i: int| is_first_occurrence(hay, needle, i) {
        Some(choose|i: int| is_first_occurrence(hay, needle, i))
    } else {
        None
    }
}

/// Whether `needle` stands anywhere in `hay`.
pub open spec fn contains(hay: Seq<char>, needle: Seq<char>) -> bool {
    exists|i: int| occurs_at(hay, needle, i)
}

/// A first occurrence is the only one of its kind, so it is the one that
/// [`first_occurrence`] names.
pub proof fn lemma_first_occurrence_is(hay: Seq<char>, needle: Seq<char>, i: int)
    requires
        is_first_occurrence(hay, needle, i),
    ensures
        first_occurrence(hay, needle) == Some(i),
        contains(hay, needle),
{
    let chosen = choose|k: int| is_first_occurrence(hay, needle, k);
    assert(is_first_occurrence(hay, needle, chosen));
    if chosen < i {
        assert(!occurs_at(hay, needle, chosen));
    }
    if i < chosen {
        assert(!occurs_at(hay, needle, i));
    }
}

/// Where nothing occurs, nothing occurs first.
pub proof fn lemma_first_occurrence_none(hay: Seq<char>, needle: Seq<char>)
    ensures
        first_occurrence(hay, needle) is None <==> !contains(hay, needle),
{
    if contains(hay, needle) {
        let w = choose|i: int| occurs_at(hay, needle, i);
        lemma_least_occurrence(hay, needle, w);
    }
}

/// Where `needle` occurs at all, it occurs somewhere first.
proof fn lemma_least_occurrence(hay: Seq<char>, needle: Seq<char>, w: int)
    requires
        occurs_at(hay, needle, w),
    ensures
        exists|i: int| is_first_occurrence(hay, needle, i),
    decreases w,
{
    if exists|j: int| 0 <= j < w && occurs_at(hay, needle, j) {
        let j = choose|j: int| 0 <= j < w && occurs_at(hay, needle, j);
        lemma_least_occurrence(hay, needle, j);
    } else {
        assert(is_first_occurrence(hay, needle, w));
    }
}

/// How many white-space characters `s` begins with.
pub open spec fn space_run(s: Seq<char>) -> nat
    decreases s.len(),
{
    if s.len() > 0 && is_space(s[0]) {
        1 + space_run(s.drop_first())
    } else {
        0
    }
}

/// How many characters other than white space `s` begins with.
pub open spec fn word_run(s: Seq<char>) -> nat
    decreases s.len(),
{
    if s.len() > 0 && !is_space(s[0]) {
        1 + word_run(s.drop_first())
    } else {
        0
    }
}

/// The first word of `s`: what stands between its leading white space and
/// the next white space, or the end. Empty where `s` holds no word.
pub open spec fn first_word(s: Seq<char>) -> Seq<char> {
    let rest = s.skip(space_run(s) as int);
    rest.take(word_run(rest) as int)
}

/// Whether `needle` stands in `hay` at index `i`.
fn matches_at(hay: &[char], needle: &[char], i: usize) -> (b: bool)
    requires
        i + needle.len() <= hay.len(),
    ensures
        b == occurs_at(hay@, needle@, i as int),
{
    let mut k: usize = 0;
    while k < needle.len()
        invariant
            k <= needle.len(),
            i + needle.len() <= hay.len(),
            forall|j: int| 0 <= j < k ==> hay@[i + j] == needle@[j],
        decreases needle.len() - k,
    {
        if hay[i + k] != needle[k] {
            proof {
                assert(hay@.subrange(i as int, i + needle.len())[k as int] == hay@[i + k]);
            }
            return false;
        }
        k += 1;
    }
    assert(hay@.subrange(i as int, i + needle.len()) =~= needle@);
    true
}

/// Where `needle` first stands in `hay`.
pub fn find(hay: &[char], needle: &[char]) -> (r: Option<usize>)
    ensures
        first_occurrence(hay@, needle@) == match r {
            Some(i) => Some(i as int),
            None => None::<int>,
        },
        r matches Some(i) ==> i + needle.len() <= hay.len(),
{
    if needle.len() > hay.len() {
        proof {
            lemma_first_occurrence_none(hay@, needle@);
        }
        return None;
    }
    let last: usize = hay.len() - needle.len();
    let mut i: usize = 0;
    loop
        invariant
            i <= last,
            last == hay.len() - needle.len(),
            forall|j: int| 0 <= j < i ==> !occurs_at(hay@, needle@, j),
        decreases last - i,
    {
        if matches_at(hay, needle, i) {
            proof {
                lemma_first_occurrence_is(hay@, needle@, i as int);
            }
            return Some(i);
        }
        if i == last {
            proof {
                lemma_first_occurrence_none(hay@, needle@);
            }
            return None;
        }
        i += 1;
    }
}

/// Counts the white-space characters that `t` holds from `from` on.
fn count_spaces(t: &[char], from: usize) -> (n: usize)
    requires
        from <= t.len(),
    ensures
        n == space_run(t@.skip(from as int)),
        from + n <= t.len(),
{
    let mut i: usize = from;
    while i < t.len() && is_whitespace(t[i])
        invariant
            from <= i <= t.len(),
            space_run(t@.skip(from as int)) == (i - from) + space_run(t@.skip(i as int)),
        decreases t.len() - i,
    {
        proof {
            assert(t@.skip(i as int).drop_first() =~= t@.skip(i + 1));
            assert(t@.skip(i as int)[0] == t@[i as int]);
        }
        i += 1;
    }
    proof {
        if i < t.len() {
            assert(t@.skip(i as int)[0] == t@[i as int]);
        }
    }
    i - from
}

/// Counts the characters other than white space that `t` holds from `from` on.
fn count_word(t: &[char], from: usize) -> (n: usize)
    requires
        from <= t.len(),
    ensures
        n == word_run(t@.skip(from as int)),
        from + n <= t.len(),
{
    let mut i: usize = from;
    while i < t.len() && !is_whitespace(t[i])
        invariant
            from <= i <= t.len(),
            word_run(t@.skip(from as int)) == (i - from) + word_run(t@.skip(i as int)),
        decreases t.len() - i,
    {
        proof {
            assert(t@.skip(i as int).drop_first() =~= t@.skip(i + 1));
            assert(t@.skip(i as int)[0] == t@[i as int]);
        }
        i += 1;
    }
    proof {
        if i < t.len() {
            assert(t@.skip(i as int)[0] == t@[i as int]);
        }
    }
    i - from
}

/// The first word that `t` holds from `from` on, as the range of its indices.
pub fn word_from(t: &[char], from: usize) -> (r: (usize, usize))
    requires
        from <= t.len(),
    ensures
        r.0 == from + space_run(t@.skip(from as int)),
        r.1 == r.0 + word_run(t@.skip(r.0 as int)),
        r.1 <= t.len(),
        t@.subrange(r.0 as int, r.1 as int) == first_word(t@.skip(from as int)),
{
    let lo: usize = from + count_spaces(t, from);
    let hi: usize = lo + count_word(t, lo);
    proof {
        let s = t@.skip(from as int);
        let rest = s.skip(space_run(s) as int);
        assert(rest =~= t@.skip(lo as int));
        assert(rest.take(word_run(rest) as int) =~= t@.subrange(lo as int, hi as int));
    }
    (lo, hi)
}

} // verus!
