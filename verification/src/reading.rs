//! Readings: transcripts brought to a common spelling for approximate matching.
//!
//! Speech recognition spells the same utterance in several ways: hiragana or
//! katakana, the long-vowel mark written as a mark or as a kana, punctuation
//! present or not. A reading drops separators and white space, moves hiragana to
//! katakana and opens the long-vowel mark into the vowel before it, while keeping
//! for each reading character the position of the source character it came from.

use vstd::prelude::*;
use crate::kana::{
    is_separator, is_white_space, spec_is_hiragana, spec_is_separator, spec_is_white_space, spec_to_katakana,
    spec_vowel_of, to_katakana, vowel_of,
};
use crate::text::chars_of;

verus! {

/// Characters that carry no reading: white space and separators.
pub open spec fn is_trimmable(c: char) -> bool {
    spec_is_white_space(c) || spec_is_separator(c)
}

/// One step of reading: how the reading so far (characters and the source
/// index of each) grows by the source character `c` at position `index`.
pub open spec fn read_step(r: (Seq<char>, Seq<int>), c: char, index: int) -> (Seq<char>, Seq<int>) {
    if is_trimmable(c) {
        r
    } else {
        let k = spec_to_katakana(c);
        if k == 'ー' {
            if r.0.len() > 0 && spec_vowel_of(r.0.last()) is Some {
                (r.0.push(spec_vowel_of(r.0.last())->0), r.1.push(index))
            } else {
                r
            }
        } else {
            (r.0.push(k), r.1.push(index))
        }
    }
}

/// The reading of `s`: its reading characters, and for each the index in `s`
/// of the character it stands for.
pub open spec fn reading_of(s: Seq<char>) -> (Seq<char>, Seq<int>)
    decreases s.len(),
{
    if s.len() == 0 {
        (Seq::empty(), Seq::empty())
    } else {
        read_step(reading_of(s.drop_last()), s.last(), s.len() - 1)
    }
}

/// The reading characters of `s`.
pub open spec fn reading_chars(s: Seq<char>) -> Seq<char> {
    reading_of(s).0
}

/// The source index of each reading character of `s`.
pub open spec fn reading_sources(s: Seq<char>) -> Seq<int> {
    reading_of(s).1
}

/// The source indices of a reading are increasing and lie within the source.
pub proof fn lemma_reading_sources(s: Seq<char>)
    ensures
        reading_chars(s).len() == reading_sources(s).len(),
        reading_chars(s).len() <= s.len(),
        forall|i: int| 0 <= i < reading_sources(s).len() ==> 0 <= #[trigger] reading_sources(s)[i] < s.len(),
        forall|i: int, j: int| 0 <= i < j < reading_sources(s).len() ==> reading_sources(s)[i] < reading_sources(s)[j],
    decreases s.len(),
{
    if s.len() > 0 {
        lemma_reading_sources(s.drop_last());
    }
}

/// `s` with white space and separators dropped and hiragana written in
/// katakana: the spelling differences that reading does away with.
pub open spec fn prenormalized(s: Seq<char>) -> Seq<char>
    decreases s.len(),
{
    if s.len() == 0 {
        s
    } else if is_trimmable(s.last()) {
        prenormalized(s.drop_last())
    } else {
        prenormalized(s.drop_last()).push(spec_to_katakana(s.last()))
    }
}

proof fn lemma_katakana_stable(c: char)
    requires
        !is_trimmable(c),
    ensures
        !is_trimmable(spec_to_katakana(c)),
        spec_to_katakana(spec_to_katakana(c)) == spec_to_katakana(c),
{
    if spec_is_hiragana(c) {
        let v = (c as u32) + 0x60;
        assert(0x30A1 <= v <= 0x30F6);
        let k = spec_to_katakana(c);
        assert(k as u32 == v);
    }
}

/// Reading a text whose spelling was already normalised gives the same
/// reading: dropping white space and separators and writing hiragana in
/// katakana first changes nothing.
pub proof fn reading_ignores_prenormalizing(s: Seq<char>)
    ensures
        reading_chars(prenormalized(s)) == reading_chars(s),
    decreases s.len(),
{
    if s.len() > 0 {
        let d = s.drop_last();
        let c = s.last();
        reading_ignores_prenormalizing(d);
        if !is_trimmable(c) {
            lemma_katakana_stable(c);
            let p = prenormalized(d);
            let k = spec_to_katakana(c);
            assert(p.push(k).drop_last() =~= p);
            assert(p.push(k).last() == k);
        }
    }
}

/// A reading together with the way back to the text it was made from.
pub struct Reading {
    /// The reading characters.
    pub chars: Vec<char>,
    /// Where in the source text `chars[i]` starts.
    pub source_start: Vec<usize>,
    /// Where in the source text `chars[i]` ends (just after it).
    pub source_end: Vec<usize>,
}

impl Reading {
    /// The source position at which reading character `start` begins.
    ///
    /// It is the character's own position, so that a dropped separator just
    /// before it is never taken along.
    pub fn source_start(&self, start: usize) -> (r: usize)
        ensures
            r == (if start < self.source_start@.len() { self.source_start@[start as int] } else { 0 }),
    {
        if start < self.source_start.len() {
            self.source_start[start]
        } else {
            0
        }
    }

    /// The source position up to which the first `end` reading characters reach.
    pub fn source_end(&self, end: usize) -> (r: usize)
        ensures
            r == (if 0 < end && end - 1 < self.source_end@.len() {
                self.source_end@[end - 1]
            } else {
                0
            }),
    {
        if end > 0 && end - 1 < self.source_end.len() {
            self.source_end[end - 1]
        } else {
            0
        }
    }
}

/// Whether `reading` is the reading of `source`, with its way back.
pub open spec fn is_reading_of(reading: &Reading, source: Seq<char>) -> bool {
    &&& reading.chars@ == reading_chars(source)
    &&& reading.source_start@.len() == reading_sources(source).len()
    &&& reading.source_end@.len() == reading_sources(source).len()
    &&& forall|i: int| 0 <= i < reading_sources(source).len() ==>
        #[trigger] reading.source_start@[i] == reading_sources(source)[i]
        && reading.source_end@[i] == reading_sources(source)[i] + 1
}

/// Brings `text` to its reading.
///
/// White space and separators are dropped, hiragana becomes katakana, and the
/// long-vowel mark becomes the vowel of the character before it (it is dropped
/// where there is none), since the same reading is written both "ターン" and "たあん".
pub fn read(text: &str) -> (r: Reading)
    ensures
        is_reading_of(&r, text@),
        r.chars@.len() <= text@.len(),
        r.chars@.len() <= isize::MAX,
{
    let source = chars_of(text);
    let mut chars: Vec<char> = Vec::new();
    let mut source_start: Vec<usize> = Vec::new();
    let mut source_end: Vec<usize> = Vec::new();
    let n = source.len();
    let mut index: usize = 0;
    while index < n
        invariant
            n == source@.len(),
            source@ == text@,
            n <= isize::MAX,
            0 <= index <= n,
            chars@ == reading_chars(source@.take(index as int)),
            source_start@.len() == reading_sources(source@.take(index as int)).len(),
            source_end@.len() == reading_sources(source@.take(index as int)).len(),
            forall|i: int| 0 <= i < source_start@.len() ==>
                #[trigger] source_start@[i] == reading_sources(source@.take(index as int))[i]
                && source_end@[i] == reading_sources(source@.take(index as int))[i] + 1,
        decreases n - index,
    {
        let ghost before = source@.take(index as int);
        let ghost after = source@.take(index + 1);
        assert(after.drop_last() =~= before);
        let c = source[index];
        assert(reading_of(after) == read_step(reading_of(before), c, index as int));
        let ghost old_start = source_start@;
        let ghost old_end = source_end@;
        if !(is_white_space(c) || is_separator(c)) {
            let k = to_katakana(c);
            if k == 'ー' {
                if chars.len() > 0 {
                    match vowel_of(chars[chars.len() - 1]) {
                        Some(v) => {
                            chars.push(v);
                            source_start.push(index);
                            source_end.push(index + 1);
                        },
                        None => {},
                    }
                }
            } else {
                chars.push(k);
                source_start.push(index);
                source_end.push(index + 1);
            }
        }
        assert(chars@ == reading_chars(after));
        assert(source_start@.len() == reading_sources(after).len());
        assert forall|i: int| 0 <= i < source_start@.len() implies
            #[trigger] source_start@[i] == reading_sources(after)[i]
            && source_end@[i] == reading_sources(after)[i] + 1 by {
            if i < old_start.len() {
                assert(source_start@[i] == old_start[i]);
                assert(source_end@[i] == old_end[i]);
                assert(reading_sources(after)[i] == reading_sources(before)[i]);
            }
        }
        index = index + 1;
    }
    assert(source@.take(n as int) =~= source@);
    proof {
        lemma_reading_sources(source@);
    }
    Reading { chars, source_start, source_end }
}

/// The smaller of two naturals.
pub open spec fn min_nat(a: nat, b: nat) -> nat {
    if a <= b { a } else { b }
}

/// The least number of edits (insertions, deletions, substitutions) that turn
/// the first `i` characters of `p` into some substring of `t` that ends just
/// before position `j` (the substring may start anywhere at or before `j`).
pub open spec fn dist(t: Seq<char>, p: Seq<char>, i: nat, j: nat) -> nat
    decreases i, j,
{
    if i == 0 {
        0
    } else if j == 0 {
        i
    } else {
        let substitute = dist(t, p, (i - 1) as nat, (j - 1) as nat) + (if p[i - 1] == t[j - 1] { 0nat } else { 1nat });
        min_nat(min_nat(substitute, dist(t, p, (i - 1) as nat, j) + 1), dist(t, p, i, (j - 1) as nat) + 1)
    }
}

/// Matching all of `p` never costs more than one edit per pattern character.
pub proof fn lemma_dist_bounded(t: Seq<char>, p: Seq<char>, i: nat, j: nat)
    ensures
        dist(t, p, i, j) <= i,
    decreases i, j,
{
    if i > 0 && j > 0 {
        lemma_dist_bounded(t, p, (i - 1) as nat, j);
    }
}

/// The edit (Levenshtein) distance between `a` and `b`: the least number of
/// insertions, deletions and substitutions that turn one into the other.
pub open spec fn edit_distance(a: Seq<char>, b: Seq<char>) -> nat
    decreases a.len(), b.len(),
{
    if a.len() == 0 {
        b.len()
    } else if b.len() == 0 {
        a.len()
    } else {
        let substitute = edit_distance(a.drop_last(), b.drop_last()) + (if a.last() == b.last() { 0nat } else { 1nat });
        min_nat(min_nat(substitute, edit_distance(a.drop_last(), b) + 1), edit_distance(a, b.drop_last()) + 1)
    }
}

/// Unfolds `edit_distance` on a prefix of `p` and a substring of `t`.
proof fn lemma_edit_step(t: Seq<char>, p: Seq<char>, i: int, s: int, j: int)
    requires
        0 < i <= p.len(),
        0 <= s < j <= t.len(),
    ensures
        edit_distance(p.take(i), t.subrange(s, j)) == min_nat(
            min_nat(
                edit_distance(p.take(i - 1), t.subrange(s, j - 1)) + (if p[i - 1] == t[j - 1] { 0nat } else { 1nat }),
                edit_distance(p.take(i - 1), t.subrange(s, j)) + 1,
            ),
            edit_distance(p.take(i), t.subrange(s, j - 1)) + 1,
        ),
{
    assert(p.take(i).drop_last() =~= p.take(i - 1));
    assert(t.subrange(s, j).drop_last() =~= t.subrange(s, j - 1));
    assert(p.take(i).last() == p[i - 1]);
    assert(t.subrange(s, j).last() == t[j - 1]);
}

proof fn lemma_dist_lower(t: Seq<char>, p: Seq<char>, i: nat, j: nat, s: int)
    requires
        i <= p.len(),
        j <= t.len(),
        0 <= s <= j,
    ensures
        dist(t, p, i, j) <= edit_distance(p.take(i as int), t.subrange(s, j as int)),
    decreases i, j,
{
    lemma_dist_bounded(t, p, i, j);
    if i == 0 {
    } else if s == j {
        assert(t.subrange(s, j as int).len() == 0);
    } else {
        lemma_edit_step(t, p, i as int, s, j as int);
        lemma_dist_lower(t, p, (i - 1) as nat, (j - 1) as nat, s);
        lemma_dist_lower(t, p, (i - 1) as nat, j, s);
        lemma_dist_lower(t, p, i, (j - 1) as nat, s);
    }
}

proof fn lemma_dist_reached(t: Seq<char>, p: Seq<char>, i: nat, j: nat) -> (s: int)
    requires
        i <= p.len(),
        j <= t.len(),
    ensures
        0 <= s <= j,
        dist(t, p, i, j) == edit_distance(p.take(i as int), t.subrange(s, j as int)),
    decreases i, j,
{
    if i == 0 {
        j as int
    } else if j == 0 {
        0
    } else {
        let c: nat = if p[i - 1] == t[j - 1] { 0 } else { 1 };
        let d = dist(t, p, i, j);
        lemma_dist_bounded(t, p, i, j);
        if d == dist(t, p, (i - 1) as nat, (j - 1) as nat) + c {
            let s = lemma_dist_reached(t, p, (i - 1) as nat, (j - 1) as nat);
            lemma_edit_step(t, p, i as int, s, j as int);
            lemma_dist_lower(t, p, i, j, s);
            s
        } else if d == dist(t, p, (i - 1) as nat, j) + 1 {
            let s = lemma_dist_reached(t, p, (i - 1) as nat, j);
            if s < j {
                lemma_edit_step(t, p, i as int, s, j as int);
                lemma_dist_lower(t, p, i, j, s);
                s
            } else {
                assert(t.subrange(s, j as int).len() == 0);
                assert(t.subrange(j as int, j as int).len() == 0);
                j as int
            }
        } else {
            let s = lemma_dist_reached(t, p, i, (j - 1) as nat);
            lemma_edit_step(t, p, i as int, s, j as int);
            lemma_dist_lower(t, p, i, j, s);
            s
        }
    }
}

/// The matching is by edit distance to the closest substring: the distance of
/// the closest match of `p` in `t` is the edit distance between `p` and some
/// substring of `t` ending where the match ends, and no substring of `t` at
/// all is closer to `p`.
pub proof fn closest_is_least_edit_distance(t: Seq<char>, p: Seq<char>, d: int, e: int)
    requires
        is_closest(t, p, d, e),
    ensures
        exists|s: int| 0 <= s <= e && d == #[trigger] edit_distance(p, t.subrange(s, e)),
        forall|s: int, j: int| 0 <= s <= j <= t.len() ==> d <= #[trigger] edit_distance(p, t.subrange(s, j)),
{
    assert(p.take(p.len() as int) =~= p);
    let s = lemma_dist_reached(t, p, p.len(), e as nat);
    assert(d == edit_distance(p, t.subrange(s, e)));
    assert forall|s: int, j: int| 0 <= s <= j <= t.len() implies d <= #[trigger] edit_distance(p, t.subrange(s, j)) by {
        lemma_dist_lower(t, p, p.len(), j as nat, s);
        assert(d <= dist(t, p, p.len(), j as nat));
    }
}

/// `(d, e)` is the closest match of `p` in `t`: the substring ending at `e` is
/// at edit distance `d` from `p`, no substring is closer, and no closer-ending
/// substring is as close.
pub open spec fn is_closest(t: Seq<char>, p: Seq<char>, d: int, e: int) -> bool {
    &&& 0 <= e <= t.len()
    &&& d == dist(t, p, p.len(), e as nat)
    &&& forall|j: nat| j <= t.len() ==> d <= #[trigger] dist(t, p, p.len(), j)
    &&& forall|j: nat| j < e ==> d < #[trigger] dist(t, p, p.len(), j)
}

/// `e` is where the closest match of `p` in `t` ends.
pub open spec fn ends_closest(t: Seq<char>, p: Seq<char>, e: int) -> bool {
    0 <= e && is_closest(t, p, dist(t, p, p.len(), e as nat) as int, e)
}

/// The closest match of `pattern` in `text`: its edit distance and where it ends.
///
/// Among equally close matches the one ending first is taken, so that speech
/// after the word is not pulled in.
pub fn closest_substring(text: &[char], pattern: &[char]) -> (r: (usize, usize))
    requires
        text@.len() <= isize::MAX,
    ensures
        is_closest(text@, pattern@, r.0 as int, r.1 as int),
{
    let n = text.len();
    let m = pattern.len();
    let ghost t = text@;
    let ghost p = pattern@;

    // Row 0: the empty prefix of the pattern matches before any position.
    let mut prev: Vec<usize> = Vec::new();
    let mut j: usize = 0;
    while j <= n
        invariant
            n == text@.len(),
            n <= isize::MAX,
            j <= n + 1,
            prev@.len() == j,
            forall|k: int| 0 <= k < j ==> #[trigger] prev@[k] == dist(t, p, 0, k as nat),
        decreases n + 1 - j,
    {
        prev.push(0);
        j = j + 1;
    }

    let mut i: usize = 0;
    while i < m
        invariant
            n == text@.len(),
            m == pattern@.len(),
            t == text@,
            p == pattern@,
            n <= isize::MAX,
            i <= m,
            prev@.len() == n + 1,
            forall|k: int| 0 <= k <= n ==> #[trigger] prev@[k] == dist(t, p, i as nat, k as nat),
        decreases m - i,
    {
        let mut cur: Vec<usize> = Vec::new();
        cur.push(i + 1);
        let mut j: usize = 0;
        while j < n
            invariant
                n == text@.len(),
                m == pattern@.len(),
                t == text@,
                p == pattern@,
                n <= isize::MAX,
                i < m,
                j <= n,
                prev@.len() == n + 1,
                forall|k: int| 0 <= k <= n ==> #[trigger] prev@[k] == dist(t, p, i as nat, k as nat),
                cur@.len() == j + 1,
                forall|k: int| 0 <= k <= j ==> #[trigger] cur@[k] == dist(t, p, (i + 1) as nat, k as nat),
            decreases n - j,
        {
            proof {
                lemma_dist_bounded(t, p, i as nat, j as nat);
                lemma_dist_bounded(t, p, i as nat, (j + 1) as nat);
                lemma_dist_bounded(t, p, (i + 1) as nat, j as nat);
            }
            let substitute = if pattern[i] == text[j] { prev[j] } else { prev[j] + 1 };
            let deleted = prev[j + 1] + 1;
            let best = if substitute <= deleted { substitute } else { deleted };
            let value = if cur[j] < best { cur[j] + 1 } else { best };
            assert(value == dist(t, p, (i + 1) as nat, (j + 1) as nat));
            cur.push(value);
            j = j + 1;
        }
        prev = cur;
        i = i + 1;
    }

    let mut best_distance = prev[0];
    let mut best_end: usize = 0;
    let mut j: usize = 1;
    while j <= n
        invariant
            n == text@.len(),
            m == pattern@.len(),
            t == text@,
            p == pattern@,
            n <= isize::MAX,
            1 <= j <= n + 1,
            prev@.len() == n + 1,
            forall|k: int| 0 <= k <= n ==> #[trigger] prev@[k] == dist(t, p, m as nat, k as nat),
            best_end < j,
            best_distance == dist(t, p, m as nat, best_end as nat),
            forall|k: nat| k < j ==> best_distance <= #[trigger] dist(t, p, m as nat, k),
            forall|k: nat| k < best_end ==> best_distance < #[trigger] dist(t, p, m as nat, k),
        decreases n + 1 - j,
    {
        if prev[j] < best_distance {
            best_distance = prev[j];
            best_end = j;
        }
        j = j + 1;
    }
    (best_distance, best_end)
}

/// `s` read backwards.
pub open spec fn reversed(s: Seq<char>) -> Seq<char> {
    Seq::new(s.len(), |i: int| s[s.len() - 1 - i])
}

/// Whether some substring of `t` is within the tolerated number of edits of
/// the word `f`: one edit for every four characters of the word, so that short
/// words do not fire by accident.
pub open spec fn close_enough(t: Seq<char>, f: Seq<char>) -> bool {
    f.len() > 0 && exists|j: nat| j <= t.len() && #[trigger] dist(t, f, f.len(), j) <= f.len() / 4
}

/// A word reads close enough to a text exactly when some substring of the
/// text is within one edit of it for every four of its characters.
pub proof fn close_enough_is_few_edits(t: Seq<char>, f: Seq<char>)
    ensures
        close_enough(t, f) <==> (f.len() > 0 && exists|s: int, j: int|
            0 <= s <= j <= t.len() && #[trigger] edit_distance(f, t.subrange(s, j)) <= f.len() / 4),
{
    assert(f.take(f.len() as int) =~= f);
    if close_enough(t, f) {
        let j = choose|j: nat| j <= t.len() && #[trigger] dist(t, f, f.len(), j) <= f.len() / 4;
        let s = lemma_dist_reached(t, f, f.len(), j);
        assert(edit_distance(f, t.subrange(s, j as int)) <= f.len() / 4);
    }
    if f.len() > 0 && exists|s: int, j: int|
        0 <= s <= j <= t.len() && #[trigger] edit_distance(f, t.subrange(s, j)) <= f.len() / 4 {
        let (s, j) = choose|s: int, j: int|
            0 <= s <= j <= t.len() && #[trigger] edit_distance(f, t.subrange(s, j)) <= f.len() / 4;
        lemma_dist_lower(t, f, f.len(), j as nat, s);
        assert(dist(t, f, f.len(), j as nat) <= f.len() / 4);
    }
}

/// The characters of `s` in reverse order.
fn reverse_chars(s: &[char]) -> (r: Vec<char>)
    ensures
        r@ == reversed(s@),
{
    let n = s.len();
    let mut r: Vec<char> = Vec::new();
    let mut k: usize = 0;
    while k < n
        invariant
            n == s@.len(),
            k <= n,
            r@.len() == k,
            forall|i: int| 0 <= i < k ==> #[trigger] r@[i] == s@[n - 1 - i],
        decreases n - k,
    {
        r.push(s[n - 1 - k]);
        k = k + 1;
    }
    assert(r@ =~= reversed(s@));
    r
}

/// The range `[start, end)` of the part of `text` that reads close enough to
/// the word `form`, or `None` when no part does.
///
/// The end is where the closest match ends; the start is found by matching the
/// reversed word backwards from there.
pub fn match_range(text: &[char], form: &[char]) -> (r: Option<(usize, usize)>)
    requires
        text@.len() <= isize::MAX,
    ensures
        r is Some <==> close_enough(text@, form@),
        r matches Some((s, e)) ==> {
            &&& s <= e
            &&& ends_closest(text@, form@, e as int)
            &&& ends_closest(reversed(text@.take(e as int)), reversed(form@), e - s)
        },
{
    if form.len() == 0 {
        return None;
    }
    let (distance, end) = closest_substring(text, form);
    if distance > form.len() / 4 {
        return None;
    }
    let front = &text[0..end];
    assert(front@ =~= text@.take(end as int));
    let head = reverse_chars(front);
    let backwards = reverse_chars(form);
    let (back_distance, length) = closest_substring(&head, &backwards);
    let start = end - length;
    assert(end - start == length);
    Some((start, end))
}

/// `s` without its leading white space and separators.
pub open spec fn strip_front(s: Seq<char>) -> Seq<char>
    decreases s.len(),
{
    if s.len() > 0 && is_trimmable(s[0]) {
        strip_front(s.drop_first())
    } else {
        s
    }
}

/// `s` without its trailing white space and separators.
pub open spec fn strip_back(s: Seq<char>) -> Seq<char>
    decreases s.len(),
{
    if s.len() > 0 && is_trimmable(s.last()) {
        strip_back(s.drop_last())
    } else {
        s
    }
}

/// `s` without white space and separators at either end.
pub open spec fn trimmed(s: Seq<char>) -> Seq<char> {
    strip_back(strip_front(s))
}

proof fn lemma_strip_front(s: Seq<char>, a: int)
    requires
        0 <= a <= s.len(),
        forall|i: int| 0 <= i < a ==> is_trimmable(#[trigger] s[i]),
        a == s.len() || !is_trimmable(s[a]),
    ensures
        strip_front(s) == s.subrange(a, s.len() as int),
    decreases a,
{
    if a == 0 {
        assert(s.subrange(0, s.len() as int) =~= s);
    } else {
        let rest = s.drop_first();
        assert forall|i: int| 0 <= i < a - 1 implies is_trimmable(#[trigger] rest[i]) by {
            assert(rest[i] == s[i + 1]);
        }
        lemma_strip_front(rest, a - 1);
        assert(rest.subrange(a - 1, rest.len() as int) =~= s.subrange(a, s.len() as int));
    }
}

proof fn lemma_strip_back(s: Seq<char>, b: int)
    requires
        0 <= b <= s.len(),
        forall|i: int| b <= i < s.len() ==> is_trimmable(#[trigger] s[i]),
        b == 0 || !is_trimmable(s[b - 1]),
    ensures
        strip_back(s) == s.take(b),
    decreases s.len() - b,
{
    if b == s.len() {
        assert(s.take(b) =~= s);
    } else {
        let rest = s.drop_last();
        assert forall|i: int| b <= i < rest.len() implies is_trimmable(#[trigger] rest[i]) by {
            assert(rest[i] == s[i]);
        }
        lemma_strip_back(rest, b);
        assert(rest.take(b) =~= s.take(b));
    }
}

/// `text` without white space and separators at either end.
pub fn trim_separators(text: &str) -> (r: &str)
    ensures
        r@ == trimmed(text@),
{
    let cs = chars_of(text);
    let n = cs.len();
    let mut a: usize = 0;
    while a < n && (is_white_space(cs[a]) || is_separator(cs[a]))
        invariant
            n == cs@.len(),
            cs@ == text@,
            a <= n,
            forall|i: int| 0 <= i < a ==> is_trimmable(#[trigger] cs@[i]),
        decreases n - a,
    {
        a = a + 1;
    }
    let mut b: usize = n;
    while b > a && (is_white_space(cs[b - 1]) || is_separator(cs[b - 1]))
        invariant
            n == cs@.len(),
            cs@ == text@,
            a <= b <= n,
            forall|i: int| b <= i < n ==> is_trimmable(#[trigger] cs@[i]),
        decreases b,
    {
        b = b - 1;
    }
    proof {
        let s = text@;
        lemma_strip_front(s, a as int);
        let u = s.subrange(a as int, n as int);
        assert forall|i: int| b - a <= i < u.len() implies is_trimmable(#[trigger] u[i]) by {
            assert(u[i] == s[a + i]);
        }
        if b > a {
            assert(u[b - a - 1] == s[b - 1]);
        }
        lemma_strip_back(u, b - a);
        assert(u.take(b - a) =~= s.subrange(a as int, b as int));
    }
    text.substring_char(a, b)
}

} // verus!
