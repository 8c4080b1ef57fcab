//! Correcting transcripts towards known vocabulary.
//!
//! A word placed in the recognition prompt does not necessarily come out in
//! that spelling. Where the reading matches, the known spelling is put back.
//! This works regardless of the prompt's token budget, so words that did not fit
//! in the prompt are corrected as well.

use vstd::prelude::*;
use crate::reading::{is_reading_of, read, reading_chars, reading_sources, lemma_reading_sources};
use crate::prompt::views_of;
use crate::text::{chars_of, push_char};

verus! {

/// A known term as the corrector holds it: its spelling and its reading.
pub type TermModel = (Seq<char>, Seq<char>);

/// The terms made from `words`, in order, leaving out words without a reading.
pub open spec fn entries_of(words: Seq<Seq<char>>) -> Seq<TermModel>
    decreases words.len(),
{
    if words.len() == 0 {
        Seq::empty()
    } else {
        let rest = entries_of(words.drop_last());
        let w = words.last();
        if reading_chars(w).len() > 0 {
            rest.push((w, reading_chars(w)))
        } else {
            rest
        }
    }
}

/// The first position in `sorted` holding a term with a shorter reading than `x`.
pub open spec fn insert_position(sorted: Seq<TermModel>, x: TermModel) -> int
    decreases sorted.len(),
{
    if sorted.len() == 0 {
        0
    } else if sorted.last().1.len() >= x.1.len() {
        sorted.len() as int
    } else {
        insert_position(sorted.drop_last(), x)
    }
}

/// The terms ordered by reading length, longest first; terms of equal length
/// keep their order (a stable sort).
pub open spec fn by_length(terms: Seq<TermModel>) -> Seq<TermModel>
    decreases terms.len(),
{
    if terms.len() == 0 {
        Seq::empty()
    } else {
        let sorted = by_length(terms.drop_last());
        sorted.insert(insert_position(sorted, terms.last()), terms.last())
    }
}

/// Whether `terms` is ordered by reading length, longest first.
pub open spec fn longest_first(terms: Seq<TermModel>) -> bool {
    forall|i: int, j: int| 0 <= i < j < terms.len() ==> terms[i].1.len() >= terms[j].1.len()
}

proof fn lemma_insert_position(sorted: Seq<TermModel>, x: TermModel)
    requires
        longest_first(sorted),
    ensures
        0 <= insert_position(sorted, x) <= sorted.len(),
        forall|i: int| 0 <= i < insert_position(sorted, x) ==> #[trigger] sorted[i].1.len() >= x.1.len(),
        forall|i: int| insert_position(sorted, x) <= i < sorted.len() ==> #[trigger] sorted[i].1.len() < x.1.len(),
        longest_first(sorted.insert(insert_position(sorted, x), x)),
    decreases sorted.len(),
{
    let p = insert_position(sorted, x);
    if sorted.len() == 0 {
    } else if sorted.last().1.len() >= x.1.len() {
        assert forall|i: int| 0 <= i < p implies #[trigger] sorted[i].1.len() >= x.1.len() by {
            if i < sorted.len() - 1 {
                assert(sorted[i].1.len() >= sorted[sorted.len() - 1].1.len());
            }
        }
    } else {
        let d = sorted.drop_last();
        assert(longest_first(d)) by {
            assert forall|i: int, j: int| 0 <= i < j < d.len() implies d[i].1.len() >= d[j].1.len() by {
                assert(d[i] == sorted[i] && d[j] == sorted[j]);
            }
        }
        lemma_insert_position(d, x);
        assert(p == insert_position(d, x));
        assert forall|i: int| 0 <= i < p implies #[trigger] sorted[i].1.len() >= x.1.len() by {
            assert(d[i] == sorted[i]);
        }
        assert forall|i: int| p <= i < sorted.len() implies #[trigger] sorted[i].1.len() < x.1.len() by {
            if i < d.len() {
                assert(d[i] == sorted[i]);
            }
        }
    }
    let r = sorted.insert(p, x);
    assert forall|i: int, j: int| 0 <= i < j < r.len() implies r[i].1.len() >= r[j].1.len() by {
        if j < p {
            assert(r[i] == sorted[i] && r[j] == sorted[j]);
        } else if j == p {
            assert(r[i] == sorted[i] && r[j] == x);
        } else if i < p {
            assert(r[i] == sorted[i] && r[j] == sorted[j - 1]);
        } else if i == p {
            assert(r[i] == x && r[j] == sorted[j - 1]);
        } else {
            assert(r[i] == sorted[i - 1] && r[j] == sorted[j - 1]);
        }
    }
}

proof fn lemma_by_length(terms: Seq<TermModel>)
    ensures
        longest_first(by_length(terms)),
        by_length(terms).len() == terms.len(),
    decreases terms.len(),
{
    if terms.len() > 0 {
        lemma_by_length(terms.drop_last());
        lemma_insert_position(by_length(terms.drop_last()), terms.last());
    }
}

/// The marks made while matching terms against a reading: which reading
/// characters are taken, which source character starts a replacement (and by
/// which term), and which source characters are swallowed by one.
pub type Marks = (Seq<bool>, Seq<Option<usize>>, Seq<bool>);

/// `term` is read exactly at `start` in `reading`.
pub open spec fn fits(reading: Seq<char>, term: Seq<char>, start: int) -> bool {
    0 <= start && start + term.len() <= reading.len() && reading.subrange(start, start + term.len()) == term
}

/// No reading character in `[a, b)` is taken yet.
pub open spec fn all_free(taken: Seq<bool>, a: int, b: int) -> bool {
    forall|k: int| a <= k < b ==> !#[trigger] taken[k]
}

/// `s` with the positions in `[a, b)` set.
pub open spec fn set_range(s: Seq<bool>, a: int, b: int) -> Seq<bool> {
    Seq::new(s.len(), |k: int| if a <= k && k < b { true } else { s[k] })
}

/// Tries term `ti` (reading `term`) at reading position `start`: where it is
/// read exactly and none of its characters is taken yet, its characters are
/// taken, its first source character is replaced by the term and the rest of
/// its source span is swallowed.
pub open spec fn mark_at(m: Marks, src: Seq<int>, reading: Seq<char>, ti: usize, term: Seq<char>, start: int) -> Marks {
    let end = start + term.len();
    if fits(reading, term, start) && all_free(m.0, start, end) {
        (
            set_range(m.0, start, end),
            m.1.update(src[start], Some(ti)),
            set_range(m.2, src[start] + 1, src[end - 1] + 1),
        )
    } else {
        m
    }
}

/// Tries term `ti` at the first `count` reading positions, left to right.
pub open spec fn mark_term(m: Marks, src: Seq<int>, reading: Seq<char>, ti: usize, term: Seq<char>, count: nat) -> Marks
    decreases count,
{
    if count == 0 {
        m
    } else {
        mark_at(mark_term(m, src, reading, ti, term, (count - 1) as nat), src, reading, ti, term, count - 1)
    }
}

/// The number of positions at which a reading of length `m` can start in one of length `n`.
pub open spec fn start_count(n: nat, m: nat) -> nat {
    if n + 1 >= m { (n + 1 - m) as nat } else { 0 }
}

/// No marks at all.
pub open spec fn unmarked(reading_len: nat, text_len: nat) -> Marks {
    (Seq::new(reading_len, |k: int| false), Seq::new(text_len, |k: int| None), Seq::new(text_len, |k: int| false))
}

/// The marks after trying the first `count` terms, in order, at every position.
pub open spec fn mark_terms(terms: Seq<TermModel>, src: Seq<int>, reading: Seq<char>, text_len: nat, count: nat) -> Marks
    decreases count,
{
    if count == 0 {
        unmarked(reading.len(), text_len)
    } else {
        let ti = count - 1;
        mark_term(
            mark_terms(terms, src, reading, text_len, (count - 1) as nat),
            src,
            reading,
            ti as usize,
            terms[ti].1,
            start_count(reading.len(), terms[ti].1.len()),
        )
    }
}

/// What source character `k` becomes: the term that replaces it, nothing when
/// it is swallowed, or itself.
pub open spec fn piece(text: Seq<char>, m: Marks, terms: Seq<TermModel>, k: int) -> Seq<char> {
    match m.1[k] {
        Some(ti) => terms[ti as int].0,
        None => if m.2[k] { Seq::empty() } else { seq![text[k]] },
    }
}

/// The output for the first `upto` source characters.
pub open spec fn emit(text: Seq<char>, m: Marks, terms: Seq<TermModel>, upto: nat) -> Seq<char>
    decreases upto,
{
    if upto == 0 {
        Seq::empty()
    } else {
        emit(text, m, terms, (upto - 1) as nat) + piece(text, m, terms, upto - 1)
    }
}

/// `text` with every place whose reading is exactly a term's reading written in
/// the term's spelling. Terms are tried in order (longest first) and each from
/// left to right; a place already taken by an earlier term is not taken again.
pub open spec fn spec_correct(terms: Seq<TermModel>, text: Seq<char>) -> Seq<char> {
    let reading = reading_chars(text);
    let src = reading_sources(text);
    emit(text, mark_terms(terms, src, reading, text.len(), terms.len()), terms, text.len())
}

/// Whether `term` is read exactly at `start` in `reading`.
fn reads_at(reading: &[char], start: usize, term: &[char]) -> (r: bool)
    requires
        start + term@.len() <= reading@.len(),
    ensures
        r == fits(reading@, term@, start as int),
{
    let n = reading.len();
    let mut k: usize = 0;
    while k < term.len()
        invariant
            n == reading@.len(),
            start + term@.len() <= reading@.len(),
            k <= term@.len(),
            forall|i: int| 0 <= i < k ==> reading@[start + i] == #[trigger] term@[i],
        decreases term@.len() - k,
    {
        if reading[start + k] != term[k] {
            assert(reading@.subrange(start as int, start + term@.len())[k as int] != term@[k as int]);
            return false;
        }
        k = k + 1;
    }
    assert(reading@.subrange(start as int, start + term@.len()) =~= term@);
    true
}

/// Whether no position in `[a, b)` is taken.
fn is_free(taken: &[bool], a: usize, b: usize) -> (r: bool)
    requires
        a <= b <= taken@.len(),
    ensures
        r == all_free(taken@, a as int, b as int),
{
    let mut k: usize = a;
    while k < b
        invariant
            a <= k <= b <= taken@.len(),
            all_free(taken@, a as int, k as int),
        decreases b - k,
    {
        if taken[k] {
            return false;
        }
        k = k + 1;
    }
    true
}

/// Sets the positions in `[a, b)`.
fn set_true(v: &mut Vec<bool>, a: usize, b: usize)
    requires
        a <= b <= old(v)@.len(),
    ensures
        final(v)@ == set_range(old(v)@, a as int, b as int),
{
    let ghost initial = v@;
    let mut k: usize = a;
    while k < b
        invariant
            a <= k <= b <= v@.len(),
            v@ == set_range(initial, a as int, k as int),
            initial.len() == v@.len(),
        decreases b - k,
    {
        v.set(k, true);
        k = k + 1;
        assert(v@ =~= set_range(initial, a as int, k as int));
    }
}

/// Corrects transcripts towards known terms: player names, room names and
/// game terms. They change from game to game, so it is rebuilt when they do.
pub struct VocabularyCorrector {
    /// Each term's spelling and reading, longest reading first.
    terms: Vec<(String, Vec<char>)>,
}

impl View for VocabularyCorrector {
    type V = Seq<TermModel>;

    closed spec fn view(&self) -> Seq<TermModel> {
        Seq::new(self.terms@.len(), |i: int| (self.terms@[i].0@, self.terms@[i].1@))
    }
}

impl VocabularyCorrector {
    /// Every term has a reading.
    pub closed spec fn wf(&self) -> bool {
        forall|i: int| 0 <= i < self.terms@.len() ==> (#[trigger] self.terms@[i]).1@.len() > 0
    }

    /// A corrector for `words`. Words without a reading are left out, and the
    /// terms are tried longest reading first, so that a short word does not
    /// take part of a longer one.
    pub fn new(words: &[&str]) -> (r: Self)
        ensures
            r.wf(),
            r@ == by_length(entries_of(views_of(words@))),
    {
        let mut terms: Vec<(String, Vec<char>)> = Vec::new();
        let mut k: usize = 0;
        while k < words.len()
            invariant
                k <= words@.len(),
                forall|i: int| 0 <= i < terms@.len() ==> (#[trigger] terms@[i]).1@.len() > 0,
                Seq::new(terms@.len(), |i: int| (terms@[i].0@, terms@[i].1@)) == by_length(entries_of(views_of(words@).take(k as int))),
            decreases words@.len() - k,
        {
            let ghost before = Seq::new(terms@.len(), |i: int| (terms@[i].0@, terms@[i].1@));
            let ghost taken = views_of(words@).take(k as int);
            assert(views_of(words@).take(k + 1).drop_last() =~= taken);
            assert(views_of(words@).take(k + 1).last() == words@[k as int]@);
            proof {
                lemma_by_length(entries_of(taken));
            }
            let word = words[k];
            let reading = read(word).chars;
            if reading.len() > 0 {
                let ghost x: TermModel = (word@, reading@);
                let mut pos: usize = 0;
                while pos < terms.len() && terms[pos].1.len() >= reading.len()
                    invariant
                        pos <= terms@.len(),
                        before == Seq::new(terms@.len(), |i: int| (terms@[i].0@, terms@[i].1@)),
                        forall|i: int| 0 <= i < pos ==> (#[trigger] before[i]).1.len() >= x.1.len(),
                        x.1 == reading@,
                    decreases terms@.len() - pos,
                {
                    pos = pos + 1;
                }
                proof {
                    lemma_insert_position(before, x);
                    let p = insert_position(before, x);
                    if (pos as int) < p {
                        assert(before[pos as int].1.len() >= x.1.len());
                    } else if (pos as int) > p {
                        assert(before[p].1.len() >= x.1.len());
                    }
                    assert(entries_of(views_of(words@).take(k + 1)) == entries_of(taken).push(x));
                    assert(entries_of(taken).push(x).drop_last() =~= entries_of(taken));
                }
                terms.insert(pos, (word.to_owned(), reading));
                assert(Seq::new(terms@.len(), |i: int| (terms@[i].0@, terms@[i].1@)) =~= before.insert(pos as int, x));
            } else {
                assert(entries_of(views_of(words@).take(k + 1)) == entries_of(taken));
            }
            k = k + 1;
        }
        assert(views_of(words@).take(words@.len() as int) =~= views_of(words@));
        VocabularyCorrector { terms }
    }

    /// `text` with the places whose reading is exactly that of a known term
    /// written in the term's spelling.
    ///
    /// Only exact readings are replaced: a wrong replacement would lose what was
    /// said, so a missed correction is preferred to a wrong one.
    pub fn correct(&self, text: &str) -> (r: String)
        requires
            self.wf(),
        ensures
            r@ == spec_correct(self@, text@),
    {
        let reading = read(text);
        let chars = chars_of(text);
        let rn = reading.chars.len();
        let tn = chars.len();
        let ghost terms = self@;
        let ghost src = reading_sources(text@);
        let ghost rd = reading_chars(text@);
        proof {
            lemma_reading_sources(text@);
        }

        let mut taken: Vec<bool> = Vec::new();
        let mut k: usize = 0;
        while k < rn
            invariant
                k <= rn,
                taken@ =~= Seq::new(k as nat, |i: int| false),
            decreases rn - k,
        {
            taken.push(false);
            k = k + 1;
        }
        let mut replacement: Vec<Option<usize>> = Vec::new();
        let mut removed: Vec<bool> = Vec::new();
        let mut k: usize = 0;
        while k < tn
            invariant
                k <= tn,
                replacement@ =~= Seq::new(k as nat, |i: int| None),
                removed@ =~= Seq::new(k as nat, |i: int| false),
            decreases tn - k,
        {
            replacement.push(None);
            removed.push(false);
            k = k + 1;
        }

        let mut ti: usize = 0;
        while ti < self.terms.len()
            invariant
                self.wf(),
                terms == self@,
                is_reading_of(&reading, text@),
                rd == reading_chars(text@),
                src == reading_sources(text@),
                rd.len() == src.len(),
                rn == rd.len(),
                chars@ == text@,
                tn == text@.len(),
                forall|i: int| 0 <= i < src.len() ==> 0 <= #[trigger] src[i] < tn,
                forall|i: int, j: int| 0 <= i < j < src.len() ==> src[i] < src[j],
                ti <= self.terms@.len(),
                (taken@, replacement@, removed@) == mark_terms(terms, src, rd, tn as nat, ti as nat),
                taken@.len() == rn,
                replacement@.len() == tn,
                removed@.len() == tn,
                forall|i: int| 0 <= i < tn ==> (#[trigger] replacement@[i] matches Some(t) ==> t < ti),
            decreases self.terms@.len() - ti,
        {
            let term = &self.terms[ti].1;
            let m = term.len();
            assert(term@ == terms[ti as int].1);
            assert(m > 0);
            let count = if rn >= m - 1 { rn - (m - 1) } else { 0 };
            let ghost base: Marks = (taken@, replacement@, removed@);
            let mut start: usize = 0;
            while start < count
                invariant
                    self.wf(),
                    terms == self@,
                    is_reading_of(&reading, text@),
                    rd == reading_chars(text@),
                    src == reading_sources(text@),
                    rd.len() == src.len(),
                    rn == rd.len(),
                    tn == text@.len(),
                    forall|i: int| 0 <= i < src.len() ==> 0 <= #[trigger] src[i] < tn,
                    forall|i: int, j: int| 0 <= i < j < src.len() ==> src[i] < src[j],
                    ti < self.terms@.len(),
                    term@ == terms[ti as int].1,
                    m == term@.len(),
                    m > 0,
                    count == start_count(rn as nat, m as nat),
                    start <= count,
                    (taken@, replacement@, removed@) == mark_term(base, src, rd, ti, term@, start as nat),
                    taken@.len() == rn,
                    replacement@.len() == tn,
                    removed@.len() == tn,
                    forall|i: int| 0 <= i < tn ==> (#[trigger] replacement@[i] matches Some(t) ==> t <= ti),
                decreases count - start,
            {
                let end = start + m;
                let ghost before: Marks = (taken@, replacement@, removed@);
                if reads_at(&reading.chars, start, term) && is_free(&taken, start, end) {
                    let from = reading.source_start(start);
                    let to = reading.source_end(end);
                    assert(reading.source_start@[end - 1] == src[end - 1]);
                    assert(from == src[start as int]);
                    assert(to == src[end - 1] + 1);
                    if start < end - 1 {
                        assert(src[start as int] < src[end - 1]);
                    }
                    set_true(&mut taken, start, end);
                    replacement.set(from, Some(ti));
                    set_true(&mut removed, from + 1, to);
                    assert((taken@, replacement@, removed@) == mark_at(before, src, rd, ti, term@, start as int));
                } else {
                    assert((taken@, replacement@, removed@) == mark_at(before, src, rd, ti, term@, start as int));
                }
                start = start + 1;
            }
            ti = ti + 1;
        }

        let ghost marks: Marks = (taken@, replacement@, removed@);
        let mut corrected = String::new();
        let mut idx: usize = 0;
        while idx < tn
            invariant
                self.wf(),
                terms == self@,
                chars@ == text@,
                tn == text@.len(),
                marks == (taken@, replacement@, removed@),
                replacement@.len() == tn,
                removed@.len() == tn,
                forall|i: int| 0 <= i < tn ==> (#[trigger] replacement@[i] matches Some(t) ==> t < self.terms@.len()),
                idx <= tn,
                corrected@ == emit(text@, marks, terms, idx as nat),
            decreases tn - idx,
        {
            match replacement[idx] {
                Some(t) => {
                    corrected.append(self.terms[t].0.as_str());
                },
                None => {
                    if !removed[idx] {
                        push_char(&mut corrected, chars[idx]);
                    }
                },
            }
            idx = idx + 1;
        }
        corrected
    }
}

proof fn lemma_mark_term_none(m: Marks, src: Seq<int>, reading: Seq<char>, ti: usize, term: Seq<char>, count: nat)
    requires
        forall|start: int| !#[trigger] fits(reading, term, start),
    ensures
        mark_term(m, src, reading, ti, term, count) == m,
    decreases count,
{
    if count > 0 {
        lemma_mark_term_none(m, src, reading, ti, term, (count - 1) as nat);
        assert(!fits(reading, term, count - 1));
    }
}

proof fn lemma_mark_terms_none(terms: Seq<TermModel>, src: Seq<int>, reading: Seq<char>, text_len: nat, count: nat)
    requires
        count <= terms.len(),
        forall|ti: int, start: int| 0 <= ti < terms.len() ==> !#[trigger] fits(reading, terms[ti].1, start),
    ensures
        mark_terms(terms, src, reading, text_len, count) == unmarked(reading.len(), text_len),
    decreases count,
{
    if count > 0 {
        let ti = count - 1;
        lemma_mark_terms_none(terms, src, reading, text_len, (count - 1) as nat);
        assert forall|start: int| !#[trigger] fits(reading, terms[ti].1, start) by {}
        lemma_mark_term_none(
            unmarked(reading.len(), text_len),
            src,
            reading,
            ti as usize,
            terms[ti].1,
            start_count(reading.len(), terms[ti].1.len()),
        );
    }
}

proof fn lemma_emit_unmarked(text: Seq<char>, reading_len: nat, terms: Seq<TermModel>, upto: nat)
    requires
        upto <= text.len(),
    ensures
        emit(text, unmarked(reading_len, text.len()), terms, upto) == text.take(upto as int),
    decreases upto,
{
    if upto > 0 {
        lemma_emit_unmarked(text, reading_len, terms, (upto - 1) as nat);
        assert(text.take(upto as int) =~= text.take(upto - 1) + seq![text[upto - 1]]);
    }
}

/// Speech in which no term is read anywhere is left exactly as it is.
pub proof fn unmatched_speech_is_kept(terms: Seq<TermModel>, text: Seq<char>)
    requires
        forall|ti: int, start: int| 0 <= ti < terms.len() ==> !#[trigger] fits(reading_chars(text), terms[ti].1, start),
    ensures
        spec_correct(terms, text) == text,
{
    let reading = reading_chars(text);
    let src = reading_sources(text);
    lemma_mark_terms_none(terms, src, reading, text.len(), terms.len());
    lemma_emit_unmarked(text, reading.len(), terms, text.len());
    assert(text.take(text.len() as int) =~= text);
}

/// Every word with a reading is a term: the corrector made from `words`
/// holds each word that has a reading, with that reading.
pub proof fn words_with_a_reading_are_terms(words: Seq<Seq<char>>, w: Seq<char>)
    requires
        words.contains(w),
        reading_chars(w).len() > 0,
    ensures
        by_length(entries_of(words)).contains((w, reading_chars(w))),
{
    lemma_entries_of_contains(words, w);
    lemma_by_length_contains(entries_of(words), (w, reading_chars(w)));
}

proof fn lemma_entries_of_contains(words: Seq<Seq<char>>, w: Seq<char>)
    requires
        words.contains(w),
        reading_chars(w).len() > 0,
    ensures
        entries_of(words).contains((w, reading_chars(w))),
    decreases words.len(),
{
    let d = words.drop_last();
    let x = (w, reading_chars(w));
    if words.last() == w {
        let e = entries_of(words);
        assert(e == entries_of(d).push(x));
        assert(e[e.len() - 1] == x);
    } else {
        let j = choose|j: int| 0 <= j < words.len() && words[j] == w;
        assert(d[j] == w);
        lemma_entries_of_contains(d, w);
        let k = choose|k: int| 0 <= k < entries_of(d).len() && entries_of(d)[k] == x;
        let last = words.last();
        if reading_chars(last).len() > 0 {
            assert(entries_of(words)[k] == x);
        }
    }
}

proof fn lemma_by_length_contains(terms: Seq<TermModel>, x: TermModel)
    requires
        terms.contains(x),
    ensures
        by_length(terms).contains(x),
    decreases terms.len(),
{
    let d = terms.drop_last();
    let sorted = by_length(d);
    lemma_by_length(d);
    let p = insert_position(sorted, terms.last());
    lemma_insert_position(sorted, terms.last());
    let r = sorted.insert(p, terms.last());
    if terms.last() == x {
        assert(r[p] == x);
    } else {
        let j = choose|j: int| 0 <= j < terms.len() && terms[j] == x;
        assert(d[j] == x);
        lemma_by_length_contains(d, x);
        let k = choose|k: int| 0 <= k < sorted.len() && sorted[k] == x;
        if k < p {
            assert(r[k] == x);
        } else {
            assert(r[k + 1] == x);
        }
    }
}

proof fn lemma_mark_term_before(m: Marks, src: Seq<int>, reading: Seq<char>, ti: usize, term: Seq<char>, count: nat)
    requires
        forall|p: int| 0 <= p < count ==> !#[trigger] fits(reading, term, p),
    ensures
        mark_term(m, src, reading, ti, term, count) == m,
    decreases count,
{
    if count > 0 {
        lemma_mark_term_before(m, src, reading, ti, term, (count - 1) as nat);
        assert(!fits(reading, term, count - 1));
    }
}

proof fn lemma_mark_term_once(m: Marks, src: Seq<int>, reading: Seq<char>, term: Seq<char>, s: int, count: nat)
    requires
        0 <= s < count,
        forall|p: int| 0 <= p < count && p != s ==> !#[trigger] fits(reading, term, p),
    ensures
        mark_term(m, src, reading, 0, term, count) == mark_at(m, src, reading, 0, term, s),
    decreases count,
{
    if count == s + 1 {
        lemma_mark_term_before(m, src, reading, 0, term, s as nat);
    } else {
        lemma_mark_term_once(m, src, reading, term, s, (count - 1) as nat);
        assert(!fits(reading, term, count - 1));
    }
}

proof fn lemma_emit_once(text: Seq<char>, m: Marks, terms: Seq<TermModel>, a: int, e: int, upto: nat)
    requires
        0 <= a <= e < text.len(),
        upto <= text.len(),
        terms.len() == 1,
        m.1.len() == text.len(),
        m.2.len() == text.len(),
        forall|k: int| 0 <= k < text.len() ==> #[trigger] m.1[k] == (if k == a { Some(0usize) } else { None }),
        forall|k: int| 0 <= k < text.len() ==> #[trigger] m.2[k] == (a < k && k <= e),
    ensures
        emit(text, m, terms, upto) == (if upto <= a {
            text.take(upto as int)
        } else if upto <= e + 1 {
            text.take(a) + terms[0].0
        } else {
            text.take(a) + terms[0].0 + text.subrange(e + 1, upto as int)
        }),
    decreases upto,
{
    if upto > 0 {
        let k = upto - 1;
        lemma_emit_once(text, m, terms, a, e, k as nat);
        assert(m.1[k] == (if k == a { Some(0usize) } else { None }));
        assert(m.2[k] == (a < k && k <= e));
        if upto <= a {
            assert(text.take(upto as int) =~= text.take(k) + seq![text[k]]);
        } else if upto == a + 1 {
            assert(text.take(k) == text.take(a));
        } else if upto <= e + 1 {
            assert(piece(text, m, terms, k) =~= Seq::<char>::empty());
            assert(text.take(a) + terms[0].0 + Seq::<char>::empty() =~= text.take(a) + terms[0].0);
        } else if upto == e + 2 {
            assert(text.subrange(e + 1, upto as int) =~= seq![text[k]]);
        } else {
            assert(text.subrange(e + 1, upto as int) =~= text.subrange(e + 1, k) + seq![text[k]]);
            assert(text.take(a) + terms[0].0 + text.subrange(e + 1, k) + seq![text[k]]
                =~= text.take(a) + terms[0].0 + text.subrange(e + 1, upto as int));
        }
    }
}

/// Where a term's reading occurs once, exactly there the text is written in
/// the term's spelling: the source characters that the occurrence was read
/// from, from the first to the last, give way to the term, and everything
/// before and after stays. This holds wherever the occurrence stands, at the
/// start, in the middle or at the end of the text.
pub proof fn a_single_occurrence_is_rewritten(spelling: Seq<char>, term: Seq<char>, text: Seq<char>, s: int)
    requires
        term.len() > 0,
        fits(reading_chars(text), term, s),
        forall|p: int| #[trigger] fits(reading_chars(text), term, p) ==> p == s,
    ensures
        spec_correct(seq![(spelling, term)], text) == text.take(reading_sources(text)[s])
            + spelling
            + text.skip(reading_sources(text)[s + term.len() - 1] + 1),
{
    let reading = reading_chars(text);
    let src = reading_sources(text);
    let terms = seq![(spelling, term)];
    let tl = text.len();
    lemma_reading_sources(text);
    let n = reading.len();
    let mlen = term.len();
    let a = src[s];
    let e = src[s + mlen - 1];
    if s < s + mlen - 1 {
        assert(src[s] < src[s + mlen - 1]);
    }
    let count = start_count(n, mlen);
    assert(count == n + 1 - mlen);
    let u = unmarked(n, tl);
    assert(mark_terms(terms, src, reading, tl, 0) == u);
    assert(terms[0].1 == term);
    lemma_mark_term_once(u, src, reading, term, s, count);
    assert(all_free(u.0, s, s + mlen));
    let m = mark_at(u, src, reading, 0, term, s);
    assert(mark_terms(terms, src, reading, tl, 1) == m);
    assert(m.1 == u.1.update(a, Some(0usize)));
    assert(m.2 == set_range(u.2, a + 1, e + 1));
    lemma_emit_once(text, m, terms, a, e, tl);
    assert(text.subrange(e + 1, tl as int) =~= text.skip(e + 1));
    if tl <= e + 1 {
        assert(text.skip(e + 1) =~= Seq::<char>::empty());
        assert(text.take(a) + spelling + Seq::<char>::empty() =~= text.take(a) + spelling);
    }
}

} // verus!
