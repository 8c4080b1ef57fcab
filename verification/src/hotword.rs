//! Trigger words: finding them in transcripts and turning detections into
//! turn boundaries.
//!
//! Transcripts spell the same speech in several ways, so words are compared by
//! reading and a few misheard characters are tolerated.

use vstd::prelude::*;
use crate::reading::{
    close_enough, closest_substring, dist, ends_closest, is_closest, is_reading_of, match_range,
    prenormalized, read, reading_chars, reading_ignores_prenormalizing, reading_sources, reversed,
};

verus! {

/// The kind of trigger word that was detected.
#[derive(Debug, Clone, Copy, PartialEq, Eq, Structural)]
pub enum Hotword {
    TurnStart,
    TurnEnd,
}

/// A detected trigger word and where it stands in the text it was found in
/// (character positions, end exclusive).
#[derive(Debug, Clone, Copy, PartialEq, Eq, Structural)]
pub struct HotwordMatch {
    pub hotword: Hotword,
    pub word_start: usize,
    pub word_end: usize,
}

/// The readings of some words, in order.
pub open spec fn readings_of(words: Seq<&str>) -> Seq<Seq<char>> {
    Seq::new(words.len(), |i: int| reading_chars(words[i]@))
}

/// Whether some form in `forms` reads close enough to a part of `t`.
pub open spec fn any_close(forms: Seq<Seq<char>>, t: Seq<char>) -> bool {
    exists|i: int| 0 <= i < forms.len() && #[trigger] close_enough(t, forms[i])
}

/// The trigger word found in reading `t`: the start word is looked for first.
pub open spec fn spec_find(start_forms: Seq<Seq<char>>, end_forms: Seq<Seq<char>>, t: Seq<char>) -> Option<Hotword> {
    if any_close(start_forms, t) {
        Some(Hotword::TurnStart)
    } else if any_close(end_forms, t) {
        Some(Hotword::TurnEnd)
    } else {
        None
    }
}

/// The index of the first form at or after `i` that reads close enough to a
/// part of `t`, or `forms.len()` when there is none.
pub open spec fn first_close_from(forms: Seq<Seq<char>>, t: Seq<char>, i: int) -> int
    decreases forms.len() - i,
{
    if i < 0 || i >= forms.len() {
        forms.len() as int
    } else if close_enough(t, forms[i]) {
        i
    } else {
        first_close_from(forms, t, i + 1)
    }
}

/// Where in `source` the closest match of the word `f` lies: `[ws, we)` in
/// source character positions. The match is made on the reading of `source`
/// and mapped back through the position of each reading character.
pub open spec fn located(source: Seq<char>, f: Seq<char>, ws: int, we: int) -> bool {
    let t = reading_chars(source);
    let src = reading_sources(source);
    exists|s: int, e: int|
        #![trigger ends_closest(t, f, e), ends_closest(reversed(t.take(e)), reversed(f), e - s)]
        0 <= s <= e && ends_closest(t, f, e) && ends_closest(reversed(t.take(e)), reversed(f), e - s)
        && ws == (if s < src.len() { src[s] } else { 0 })
        && we == (if 0 < e && e - 1 < src.len() { src[e - 1] + 1 } else { 0 })
}

/// The spelling used to place the trigger word found in reading `t`: the
/// first spelling of that word that reads close enough.
pub open spec fn chosen_form(start_forms: Seq<Seq<char>>, end_forms: Seq<Seq<char>>, t: Seq<char>) -> Seq<char> {
    if any_close(start_forms, t) {
        start_forms[first_close_from(start_forms, t, 0)]
    } else {
        end_forms[first_close_from(end_forms, t, 0)]
    }
}

/// The trigger word in `source` and where it stands, if there is one.
pub open spec fn spec_locate(start_forms: Seq<Seq<char>>, end_forms: Seq<Seq<char>>, source: Seq<char>) -> Option<HotwordMatch> {
    let t = reading_chars(source);
    match spec_find(start_forms, end_forms, t) {
        None => None,
        Some(hotword) => {
            let f = chosen_form(start_forms, end_forms, t);
            let (ws, we) = choose|ws: int, we: int| located(source, f, ws, we);
            Some(HotwordMatch { hotword, word_start: ws as usize, word_end: we as usize })
        },
    }
}

/// Finding goes by reading alone: the same trigger word is found in a text
/// whose white space and separators were dropped and whose hiragana were
/// written in katakana first. And an end word is reported only when no start
/// word is found: a matcher with any one start spelling alone finds nothing.
pub proof fn find_ignores_spelling(start_forms: Seq<Seq<char>>, end_forms: Seq<Seq<char>>, text: Seq<char>)
    ensures
        spec_find(start_forms, end_forms, reading_chars(prenormalized(text))) == spec_find(start_forms, end_forms, reading_chars(text)),
        spec_find(start_forms, end_forms, reading_chars(text)) == Some(Hotword::TurnEnd) ==>
            forall|i: int| 0 <= i < start_forms.len() ==>
                (#[trigger] spec_find(seq![start_forms[i]], Seq::<Seq<char>>::empty(), reading_chars(text))) is None,
{
    reading_ignores_prenormalizing(text);
    let t = reading_chars(text);
    if spec_find(start_forms, end_forms, t) == Some(Hotword::TurnEnd) {
        assert forall|i: int| 0 <= i < start_forms.len() implies
            (#[trigger] spec_find(seq![start_forms[i]], Seq::<Seq<char>>::empty(), t)) is None by {
            assert(!close_enough(t, start_forms[i]));
            let single = seq![start_forms[i]];
            assert(!any_close(single, t)) by {
                if any_close(single, t) {
                    let j = choose|j: int| 0 <= j < single.len() && #[trigger] close_enough(t, single[j]);
                    assert(single[j] == start_forms[i]);
                }
            }
            assert(!any_close(Seq::<Seq<char>>::empty(), t));
        }
    }
}

/// Locating and finding agree: the trigger word `spec_locate` places is the
/// one `spec_find` reports for the reading of the same text.
pub proof fn locate_agrees_with_find(start_forms: Seq<Seq<char>>, end_forms: Seq<Seq<char>>, source: Seq<char>)
    ensures
        spec_find(start_forms, end_forms, reading_chars(source)) == (match spec_locate(start_forms, end_forms, source) {
            Some(m) => Some(m.hotword),
            None => None,
        }),
{
}

/// There is only one closest match.
pub proof fn lemma_ends_closest_unique(t: Seq<char>, p: Seq<char>, e1: int, e2: int)
    requires
        ends_closest(t, p, e1),
        ends_closest(t, p, e2),
    ensures
        e1 == e2,
{
    assert(dist(t, p, p.len(), e1 as nat) <= dist(t, p, p.len(), e2 as nat));
    assert(dist(t, p, p.len(), e2 as nat) <= dist(t, p, p.len(), e1 as nat));
    if e1 < e2 {
        assert(dist(t, p, p.len(), e2 as nat) < dist(t, p, p.len(), e1 as nat));
    } else if e2 < e1 {
        assert(dist(t, p, p.len(), e1 as nat) < dist(t, p, p.len(), e2 as nat));
    }
}

/// A word is located in only one place.
pub proof fn lemma_located_unique(source: Seq<char>, f: Seq<char>, a: int, b: int, c: int, d: int)
    requires
        located(source, f, a, b),
        located(source, f, c, d),
    ensures
        a == c,
        b == d,
{
    let t = reading_chars(source);
    let (s1, e1) = choose|s: int, e: int|
        #![trigger ends_closest(t, f, e), ends_closest(reversed(t.take(e)), reversed(f), e - s)]
        0 <= s <= e && ends_closest(t, f, e) && ends_closest(reversed(t.take(e)), reversed(f), e - s)
        && a == (if s < reading_sources(source).len() { reading_sources(source)[s] } else { 0 })
        && b == (if 0 < e && e - 1 < reading_sources(source).len() { reading_sources(source)[e - 1] + 1 } else { 0 });
    let (s2, e2) = choose|s: int, e: int|
        #![trigger ends_closest(t, f, e), ends_closest(reversed(t.take(e)), reversed(f), e - s)]
        0 <= s <= e && ends_closest(t, f, e) && ends_closest(reversed(t.take(e)), reversed(f), e - s)
        && c == (if s < reading_sources(source).len() { reading_sources(source)[s] } else { 0 })
        && d == (if 0 < e && e - 1 < reading_sources(source).len() { reading_sources(source)[e - 1] + 1 } else { 0 });
    lemma_ends_closest_unique(t, f, e1, e2);
    lemma_ends_closest_unique(reversed(t.take(e1)), reversed(f), e1 - s1, e2 - s2);
}

/// Normalises a word or a transcript to its reading.
pub fn normalize(text: &str) -> (r: Vec<char>)
    ensures
        r@ == reading_chars(text@),
        r@.len() <= text@.len(),
        r@.len() <= isize::MAX,
{
    read(text).chars
}

/// The edit distance between `pattern` and the substring of `text` closest to it.
pub fn min_distance_to_substring(text: &[char], pattern: &[char]) -> (r: usize)
    requires
        text@.len() <= isize::MAX,
    ensures
        exists|e: int| is_closest(text@, pattern@, r as int, e),
{
    let (distance, end) = closest_substring(text, pattern);
    distance
}

/// Whether some part of `text` reads close enough to the word `form`: within
/// one edit for every four characters of the word, so that speech recognition
/// mishearing part of a word does not lose it while short words do not fire
/// by accident.
pub fn contains_close(text: &[char], form: &[char]) -> (r: bool)
    requires
        text@.len() <= isize::MAX,
    ensures
        r == close_enough(text@, form@),
{
    if form.len() == 0 {
        return false;
    }
    let (distance, end) = closest_substring(text, form);
    if distance <= form.len() / 4 {
        assert(dist(text@, form@, form@.len(), end as nat) <= form@.len() / 4);
        true
    } else {
        assert forall|j: nat| j <= text@.len() implies #[trigger] dist(text@, form@, form@.len(), j) > form@.len() / 4 by {}
        false
    }
}

/// The readings of `words`, in order.
fn normalize_all(words: &[&str]) -> (r: Vec<Vec<char>>)
    ensures
        r@.len() == words@.len(),
        forall|i: int| 0 <= i < words@.len() ==> (#[trigger] r@[i])@ == reading_chars(words@[i]@),
        forall|i: int| 0 <= i < words@.len() ==> (#[trigger] r@[i])@.len() <= isize::MAX,
{
    let mut forms: Vec<Vec<char>> = Vec::new();
    let mut k: usize = 0;
    while k < words.len()
        invariant
            k <= words@.len(),
            forms@.len() == k,
            forall|i: int| 0 <= i < k ==> (#[trigger] forms@[i])@ == reading_chars(words@[i]@),
            forall|i: int| 0 <= i < k ==> (#[trigger] forms@[i])@.len() <= isize::MAX,
        decreases words@.len() - k,
    {
        let form = normalize(words[k]);
        forms.push(form);
        k = k + 1;
    }
    forms
}

/// Recognises trigger words in transcripts.
///
/// Each trigger word may be registered in several spellings: readings of kanji
/// cannot be derived, so "ターン開始" and "ターンかいし" are different forms
/// and every expected spelling is listed.
pub struct HotwordMatcher {
    start_forms: Vec<Vec<char>>,
    end_forms: Vec<Vec<char>>,
}

impl View for HotwordMatcher {
    type V = (Seq<Seq<char>>, Seq<Seq<char>>);

    closed spec fn view(&self) -> (Seq<Seq<char>>, Seq<Seq<char>>) {
        (
            Seq::new(self.start_forms@.len(), |i: int| self.start_forms@[i]@),
            Seq::new(self.end_forms@.len(), |i: int| self.end_forms@[i]@),
        )
    }
}

impl HotwordMatcher {
    /// The matcher's own well-formedness: its forms can be matched against.
    pub closed spec fn wf(&self) -> bool {
        &&& forall|i: int| 0 <= i < self.start_forms@.len() ==> (#[trigger] self.start_forms@[i])@.len() <= isize::MAX
        &&& forall|i: int| 0 <= i < self.end_forms@.len() ==> (#[trigger] self.end_forms@[i])@.len() <= isize::MAX
    }

    /// A matcher for the given spellings of the start and the end word.
    pub fn new(start_words: &[&str], end_words: &[&str]) -> (r: Self)
        ensures
            r.wf(),
            r@.0 == readings_of(start_words@),
            r@.1 == readings_of(end_words@),
    {
        let r = HotwordMatcher { start_forms: normalize_all(start_words), end_forms: normalize_all(end_words) };
        assert(r@.0 =~= readings_of(start_words@));
        assert(r@.1 =~= readings_of(end_words@));
        r
    }

    /// The kind of trigger word that `text` contains, if any. A start word is
    /// looked for before an end word; both in one text is not expected.
    pub fn find(&self, text: &str) -> (r: Option<Hotword>)
        requires
            self.wf(),
        ensures
            r == spec_find(self@.0, self@.1, reading_chars(text@)),
    {
        let t = normalize(text);
        let mut i: usize = 0;
        while i < self.start_forms.len()
            invariant
                i <= self.start_forms@.len(),
                t@ == reading_chars(text@),
                t@.len() <= isize::MAX,
                forall|k: int| 0 <= k < i ==> !#[trigger] close_enough(t@, self@.0[k]),
            decreases self.start_forms@.len() - i,
        {
            if contains_close(&t, &self.start_forms[i]) {
                assert(close_enough(t@, self@.0[i as int]));
                return Some(Hotword::TurnStart);
            }
            i = i + 1;
        }
        let mut i: usize = 0;
        while i < self.end_forms.len()
            invariant
                i <= self.end_forms@.len(),
                t@ == reading_chars(text@),
                t@.len() <= isize::MAX,
                !any_close(self@.0, t@),
                forall|k: int| 0 <= k < i ==> !#[trigger] close_enough(t@, self@.1[k]),
            decreases self.end_forms@.len() - i,
        {
            if contains_close(&t, &self.end_forms[i]) {
                assert(close_enough(t@, self@.1[i as int]));
                return Some(Hotword::TurnEnd);
            }
            i = i + 1;
        }
        None
    }

    /// The trigger word that `text` contains and where it stands in `text`.
    ///
    /// The spellings are tried in order, start words first; the first one that
    /// reads close enough to a part of the text gives the position.
    pub fn locate(&self, text: &str) -> (r: Option<HotwordMatch>)
        requires
            self.wf(),
        ensures
            r == spec_locate(self@.0, self@.1, text@),
    {
        let reading = read(text);
        let ghost t = reading_chars(text@);
        let mut i: usize = 0;
        while i < self.start_forms.len()
            invariant
                i <= self.start_forms@.len(),
                is_reading_of(&reading, text@),
                t == reading_chars(text@),
                reading.chars@.len() <= isize::MAX,
                forall|k: int| 0 <= k < i ==> !#[trigger] close_enough(t, self@.0[k]),
                first_close_from(self@.0, t, 0) == first_close_from(self@.0, t, i as int),
            decreases self.start_forms@.len() - i,
        {
            if let Some((s, e)) = match_range(&reading.chars, &self.start_forms[i]) {
                let m = HotwordMatch {
                    hotword: Hotword::TurnStart,
                    word_start: reading.source_start(s),
                    word_end: reading.source_end(e),
                };
                proof {
                    let f = self@.0[i as int];
                    let src = reading_sources(text@);
                    assert(close_enough(t, f));
                    assert(first_close_from(self@.0, t, i as int) == i);
                    assert(ends_closest(t, f, e as int));
                    assert(ends_closest(reversed(t.take(e as int)), reversed(f), e - s));
                    assert(m.word_start == (if s < src.len() { src[s as int] } else { 0 }));
                    if 0 < e && e - 1 < src.len() {
                        assert(reading.source_start@[e - 1] == src[e - 1]);
                    }
                    assert(m.word_end == (if 0 < e && e - 1 < src.len() { src[e - 1] + 1 } else { 0 }));
                    assert(located(text@, f, m.word_start as int, m.word_end as int));
                    assert(chosen_form(self@.0, self@.1, t) == f);
                    let (ws, we) = choose|ws: int, we: int| located(text@, f, ws, we);
                    lemma_located_unique(text@, f, m.word_start as int, m.word_end as int, ws, we);
                }
                return Some(m);
            }
            proof {
                lemma_first_close_skips(self@.0, t, i as int);
            }
            i = i + 1;
        }
        let mut i: usize = 0;
        while i < self.end_forms.len()
            invariant
                i <= self.end_forms@.len(),
                is_reading_of(&reading, text@),
                t == reading_chars(text@),
                reading.chars@.len() <= isize::MAX,
                !any_close(self@.0, t),
                forall|k: int| 0 <= k < i ==> !#[trigger] close_enough(t, self@.1[k]),
                first_close_from(self@.1, t, 0) == first_close_from(self@.1, t, i as int),
            decreases self.end_forms@.len() - i,
        {
            if let Some((s, e)) = match_range(&reading.chars, &self.end_forms[i]) {
                let m = HotwordMatch {
                    hotword: Hotword::TurnEnd,
                    word_start: reading.source_start(s),
                    word_end: reading.source_end(e),
                };
                proof {
                    let f = self@.1[i as int];
                    let src = reading_sources(text@);
                    assert(close_enough(t, f));
                    assert(first_close_from(self@.1, t, i as int) == i);
                    assert(ends_closest(t, f, e as int));
                    assert(ends_closest(reversed(t.take(e as int)), reversed(f), e - s));
                    assert(m.word_start == (if s < src.len() { src[s as int] } else { 0 }));
                    if 0 < e && e - 1 < src.len() {
                        assert(reading.source_start@[e - 1] == src[e - 1]);
                    }
                    assert(m.word_end == (if 0 < e && e - 1 < src.len() { src[e - 1] + 1 } else { 0 }));
                    assert(located(text@, f, m.word_start as int, m.word_end as int));
                    assert(chosen_form(self@.0, self@.1, t) == f);
                    let (ws, we) = choose|ws: int, we: int| located(text@, f, ws, we);
                    lemma_located_unique(text@, f, m.word_start as int, m.word_end as int, ws, we);
                }
                return Some(m);
            }
            proof {
                lemma_first_close_skips(self@.1, t, i as int);
            }
            i = i + 1;
        }
        None
    }
}

/// A form that does not match is passed over.
proof fn lemma_first_close_skips(forms: Seq<Seq<char>>, t: Seq<char>, i: int)
    requires
        0 <= i < forms.len(),
        !close_enough(t, forms[i]),
    ensures
        first_close_from(forms, t, i) == first_close_from(forms, t, i + 1),
{
}

/// What to do with the turn boundary on a detection.
#[derive(Debug, Clone, Copy, PartialEq, Eq, Structural)]
pub enum TurnBoundary {
    /// Open a turn.
    Open,
    /// Close the turn in progress.
    Close,
    /// Close the turn in progress and open the next one at the same position.
    Restart,
}

/// The boundary operation for a detection that is not ignored, if any: a
/// start word opens a turn (or restarts the one in progress, since turns are
/// contiguous) and an end word closes the turn in progress. An end word with no
/// turn open calls for nothing.
pub open spec fn boundary_for(hotword: Hotword, turn_open: bool) -> Option<TurnBoundary> {
    match (hotword, turn_open) {
        (Hotword::TurnStart, false) => Some(TurnBoundary::Open),
        (Hotword::TurnStart, true) => Some(TurnBoundary::Restart),
        (Hotword::TurnEnd, true) => Some(TurnBoundary::Close),
        (Hotword::TurnEnd, false) => None,
    }
}

/// Whether a detection at `at` falls within `cooldown` samples after the last
/// accepted detection `last`.
pub open spec fn cooling(last: Option<usize>, cooldown: usize, at: usize) -> bool {
    match last {
        Some(last) => (if at >= last { at - last } else { 0 }) < cooldown,
        None => false,
    }
}

/// Turns detections into turn-boundary operations.
///
/// Turns follow one another, so a start word during a turn closes it there and
/// opens the next. The end word is optional: start words alone already delimit
/// the turns.
pub struct BoundaryTracker {
    /// Detections within this many samples of the last accepted one are ignored.
    cooldown_samples: usize,
    last_detection: Option<usize>,
}

impl BoundaryTracker {
    /// The cooldown length, in samples.
    pub closed spec fn cooldown(&self) -> usize {
        self.cooldown_samples
    }

    /// The position of the last accepted detection.
    pub closed spec fn last(&self) -> Option<usize> {
        self.last_detection
    }

    /// Whether a detection at `at` comes too soon after the last accepted one.
    pub open spec fn spec_in_cooldown(&self, at: usize) -> bool {
        cooling(self.last(), self.cooldown(), at)
    }

    /// A tracker that has accepted nothing yet.
    pub fn new(cooldown_samples: usize) -> (r: Self)
        ensures
            r.cooldown() == cooldown_samples,
            r.last() is None,
    {
        BoundaryTracker { cooldown_samples, last_detection: None }
    }

    /// Takes a detection at absolute sample position `at` and returns the
    /// boundary operation to perform. A detection that calls for an operation
    /// becomes the start of the cooldown; an ignored one does not.
    pub fn accept(&mut self, hotword: Hotword, at: usize, turn_open: bool) -> (r: Option<TurnBoundary>)
        ensures
            final(self).cooldown() == old(self).cooldown(),
            r == (if old(self).spec_in_cooldown(at) { None } else { boundary_for(hotword, turn_open) }),
            r is Some ==> final(self).last() == Some(at),
            r is None ==> final(self).last() == old(self).last(),
    {
        if self.in_cooldown(at) {
            return None;
        }
        let boundary = match (hotword, turn_open) {
            (Hotword::TurnStart, false) => TurnBoundary::Open,
            (Hotword::TurnStart, true) => TurnBoundary::Restart,
            (Hotword::TurnEnd, true) => TurnBoundary::Close,
            (Hotword::TurnEnd, false) => return None,
        };
        self.last_detection = Some(at);
        Some(boundary)
    }

    /// Whether a detection at `at` comes too soon after the last accepted one,
    /// which keeps one utterance from being picked up twice.
    pub fn in_cooldown(&self, at: usize) -> (r: bool)
        ensures
            r == self.spec_in_cooldown(at),
    {
        match self.last_detection {
            Some(last) => at.saturating_sub(last) < self.cooldown_samples,
            None => false,
        }
    }
}

/// The sample rate of recordings, in samples per second.
pub const SAMPLE_RATE: usize = 16000;

/// How long after an accepted detection further detections are ignored, in seconds.
pub const COOLDOWN_SECS: usize = 3;

/// The length of a window of the recording sent to trigger-word detection, in
/// samples: long enough to hold a whole trigger word.
pub const HOTWORD_WINDOW_SAMPLES: usize = 32000;

/// How far apart windows are sent, in samples: less than a window, so that
/// windows overlap and a word across a window's edge is not missed.
pub const HOTWORD_STRIDE_SAMPLES: usize = 16000;

/// When to send the next window of the recording to trigger-word detection.
pub struct HotwordWindows {
    /// Whether a window was sent and not answered yet.
    pub pending: bool,
    /// Where the last window sent ended.
    pub last_end: usize,
}

impl HotwordWindows {
    /// Nothing sent yet.
    pub fn new() -> (r: Self)
        ensures
            !r.pending,
            r.last_end == 0,
    {
        HotwordWindows { pending: false, last_end: 0 }
    }

    /// The start of the window to send when the recording is `now` samples
    /// long, if one is due: none while the last one is unanswered (queued
    /// windows would put detection behind the speech), none before a whole
    /// window is recorded or a stride has passed since the last one. A window
    /// sent ends at `now` and is pending until answered.
    pub fn next_window(&mut self, now: usize) -> (r: Option<usize>)
        ensures
            r == (if old(self).pending || now < HOTWORD_WINDOW_SAMPLES || now < old(self).last_end + HOTWORD_STRIDE_SAMPLES {
                None::<usize>
            } else {
                Some((now - HOTWORD_WINDOW_SAMPLES) as usize)
            }),
            r is Some ==> final(self).pending && final(self).last_end == now,
            r is None ==> *final(self) == *old(self),
    {
        if self.pending || now < HOTWORD_WINDOW_SAMPLES {
            return None;
        }
        if now < self.last_end || now - self.last_end < HOTWORD_STRIDE_SAMPLES {
            return None;
        }
        self.pending = true;
        self.last_end = now;
        Some(now - HOTWORD_WINDOW_SAMPLES)
    }

    /// A window was answered: the next one may be sent.
    pub fn answered(&mut self)
        ensures
            !final(self).pending,
            final(self).last_end == old(self).last_end,
    {
        self.pending = false;
    }
}

/// The default spellings of the start word. Kanji and kana cannot be told
/// apart by matching, so each expected spelling is listed.
pub fn default_start_words() -> (r: [&'static str; 2])
    ensures
        r@ == seq!["ターン開始", "ターンかいし"],
{
    ["ターン開始", "ターンかいし"]
}

/// The default spellings of the end word.
pub fn default_end_words() -> (r: [&'static str; 2])
    ensures
        r@ == seq!["ターン終了", "ターンしゅうりょう"],
{
    ["ターン終了", "ターンしゅうりょう"]
}

/// The representative spellings put in the recognition prompt: the first
/// spelling of each word. The matching variants are left out, since the prompt
/// shows the model the spelling it should produce.
pub fn prompt_words() -> (r: [&'static str; 2])
    ensures
        r@ == seq!["ターン開始", "ターン終了"],
{
    ["ターン開始", "ターン終了"]
}

} // verus!
