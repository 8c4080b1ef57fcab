//! Voice memos on the turn timeline.
//!
//! A turn is an interval of the recording, in absolute sample positions. Memos
//! are transcribed speech placed in the turn whose interval contains the
//! position where it was spoken; trigger words in the transcript open and close
//! turns.

use vstd::prelude::*;
use crate::hotword::{
    boundary_for, cooling, readings_of, spec_find, BoundaryTracker, Hotword, HotwordMatcher, TurnBoundary,
    default_end_words, default_start_words, spec_locate, COOLDOWN_SECS, SAMPLE_RATE,
};
use crate::reading::{reading_chars, trim_separators, trimmed};
use crate::text::{chars_of, string_of};
use crate::prompt::{
    context_items, fitted, known_terms_of, nonempty_names, same_vocabulary, string_views, views_of, Vocabulary,
};
use crate::vocabulary::{by_length, entries_of, spec_correct, TermModel, VocabularyCorrector};

verus! {

/// A transcribed voice memo.
#[derive(Debug, Clone)]
pub struct VoiceMemo {
    /// Where in its turn the memo was spoken, in samples from the turn's start.
    pub offset_samples: usize,
    /// The transcribed text.
    pub text: String,
}

/// A turn: an interval of the recording and the memos spoken in it.
#[derive(Debug, Clone, Default)]
pub struct Round {
    /// The memos, in the order they were spoken.
    pub memos: Vec<VoiceMemo>,
    /// Where the turn starts.
    pub start_sample: usize,
    /// Where the turn ends; `None` while it is in progress.
    pub end_sample: Option<usize>,
}

/// A memo as the contracts see it.
pub struct MemoModel {
    pub offset: usize,
    pub text: Seq<char>,
}

/// A turn as the contracts see it.
pub struct RoundModel {
    pub memos: Seq<MemoModel>,
    pub start: usize,
    pub end: Option<usize>,
}

impl View for VoiceMemo {
    type V = MemoModel;

    open spec fn view(&self) -> MemoModel {
        MemoModel { offset: self.offset_samples, text: self.text@ }
    }
}

impl View for Round {
    type V = RoundModel;

    open spec fn view(&self) -> RoundModel {
        RoundModel {
            memos: Seq::new(self.memos@.len(), |i: int| self.memos@[i]@),
            start: self.start_sample,
            end: self.end_sample,
        }
    }
}

impl Round {
    /// A turn starting at `start_sample`, with no memos yet.
    pub fn new(start_sample: usize, end_sample: Option<usize>) -> (r: Self)
        ensures
            r@.memos == Seq::<MemoModel>::empty(),
            r@.start == start_sample,
            r@.end == end_sample,
    {
        let r = Round { memos: Vec::new(), start_sample, end_sample };
        assert(r@.memos =~= Seq::<MemoModel>::empty());
        r
    }
}

/// The views of some turns.
pub open spec fn rounds_view(rounds: Seq<Round>) -> Seq<RoundModel> {
    Seq::new(rounds.len(), |i: int| rounds[i]@)
}

/// Whether memos are in the order they were spoken.
pub open spec fn memos_in_order(memos: Seq<MemoModel>) -> bool {
    forall|i: int, j: int| 0 <= i < j < memos.len() ==> memos[i].offset <= memos[j].offset
}

/// Whether the turn at `i` contains position `at`. A turn in progress has no
/// end and contains everything from its start on.
pub open spec fn contains(r: RoundModel, at: usize) -> bool {
    at >= r.start && match r.end {
        Some(end) => at < end,
        None => true,
    }
}

/// The first turn, at or after `i`, that contains `at`.
pub open spec fn round_index_from(rounds: Seq<RoundModel>, at: usize, i: int) -> Option<int>
    decreases rounds.len() - i,
{
    if i < 0 || i >= rounds.len() {
        None
    } else if contains(rounds[i], at) {
        Some(i)
    } else {
        round_index_from(rounds, at, i + 1)
    }
}

proof fn lemma_round_index_from(rounds: Seq<RoundModel>, at: usize, i: int)
    ensures
        round_index_from(rounds, at, i) matches Some(j) ==> 0 <= i <= j < rounds.len() && contains(rounds[j], at),
    decreases rounds.len() - i,
{
    if 0 <= i < rounds.len() && !contains(rounds[i], at) {
        lemma_round_index_from(rounds, at, i + 1);
    }
}

/// Where a memo spoken at `offset` goes among `memos`: after every memo spoken
/// at or before it.
pub open spec fn memo_position(memos: Seq<MemoModel>, offset: usize) -> int
    decreases memos.len(),
{
    if memos.len() == 0 {
        0
    } else if memos.last().offset <= offset {
        memos.len() as int
    } else {
        memo_position(memos.drop_last(), offset)
    }
}

/// `memos` with `m` placed in speaking order.
pub open spec fn insert_memo(memos: Seq<MemoModel>, m: MemoModel) -> Seq<MemoModel> {
    memos.insert(memo_position(memos, m.offset), m)
}

proof fn lemma_memo_position(memos: Seq<MemoModel>, offset: usize)
    requires
        memos_in_order(memos),
    ensures
        0 <= memo_position(memos, offset) <= memos.len(),
        forall|i: int| 0 <= i < memo_position(memos, offset) ==> #[trigger] memos[i].offset <= offset,
        forall|i: int| memo_position(memos, offset) <= i < memos.len() ==> #[trigger] memos[i].offset > offset,
    decreases memos.len(),
{
    let p = memo_position(memos, offset);
    if memos.len() == 0 {
    } else if memos.last().offset <= offset {
        assert forall|i: int| 0 <= i < p implies #[trigger] memos[i].offset <= offset by {
            if i < memos.len() - 1 {
                assert(memos[i].offset <= memos[memos.len() - 1].offset);
            }
        }
    } else {
        let d = memos.drop_last();
        assert(memos_in_order(d)) by {
            assert forall|i: int, j: int| 0 <= i < j < d.len() implies d[i].offset <= d[j].offset by {
                assert(d[i] == memos[i] && d[j] == memos[j]);
            }
        }
        lemma_memo_position(d, offset);
        assert forall|i: int| 0 <= i < p implies #[trigger] memos[i].offset <= offset by {
            assert(d[i] == memos[i]);
        }
        assert forall|i: int| p <= i < memos.len() implies #[trigger] memos[i].offset > offset by {
            if i < d.len() {
                assert(d[i] == memos[i]);
            }
        }
    }
}

proof fn lemma_insert_memo(memos: Seq<MemoModel>, m: MemoModel)
    requires
        memos_in_order(memos),
    ensures
        memos_in_order(insert_memo(memos, m)),
{
    lemma_memo_position(memos, m.offset);
    let p = memo_position(memos, m.offset);
    let r = insert_memo(memos, m);
    assert forall|i: int, j: int| 0 <= i < j < r.len() implies r[i].offset <= r[j].offset by {
        if j < p {
            assert(r[i] == memos[i] && r[j] == memos[j]);
        } else if j == p {
            assert(r[i] == memos[i] && r[j] == m);
        } else if i < p {
            assert(r[i] == memos[i] && r[j] == memos[j - 1]);
        } else if i == p {
            assert(r[i] == m && r[j] == memos[j - 1]);
        } else {
            assert(r[i] == memos[i - 1] && r[j] == memos[j - 1]);
        }
    }
}

/// The state of the voice memo feature that is shown and kept.
#[derive(Debug, Clone)]
pub struct VoiceMemoState {
    /// Whether recording is running.
    pub is_recording: bool,
    /// Whether transcription is in progress.
    pub is_processing: bool,
    /// The turns.
    pub rounds: Vec<Round>,
    /// The turn on display (0-based).
    pub selected_round: usize,
    /// The message of the last error.
    pub error: Option<String>,
    /// Whether the speech model is available.
    pub model_available: bool,
    /// Whether a recorder is available.
    pub recorder_available: bool,
    /// Whether the model is being downloaded.
    pub is_downloading: bool,
    /// Bytes of the model downloaded so far.
    pub downloaded_bytes: u64,
    /// Size of the model download, when known.
    pub total_bytes: Option<u64>,
    /// Whether a turn is in progress.
    pub round_active: bool,
    /// Speech chunks sent for transcription and not answered yet.
    pub pending_chunks: usize,
    /// The configuration in use (such as `Vulkan / medium`).
    pub backend_label: String,
    /// The approximate size of the model (shown when asking for the download).
    pub model_size_label: String,
}

/// Whether `s` is the state before anything happened: no turns, nothing
/// running or downloaded, no model or recorder known, no error and no labels.
pub open spec fn initial_state(s: VoiceMemoState) -> bool {
    &&& s.rounds@.len() == 0
    &&& s.selected_round == 0
    &&& !s.round_active
    &&& !s.is_recording
    &&& !s.is_processing
    &&& s.pending_chunks == 0
    &&& s.error is None
    &&& !s.model_available
    &&& !s.recorder_available
    &&& !s.is_downloading
    &&& s.downloaded_bytes == 0
    &&& s.total_bytes is None
    &&& s.backend_label@.len() == 0
    &&& s.model_size_label@.len() == 0
}

impl VoiceMemoState {
    /// The state before anything happened: no turns, nothing running.
    pub fn new() -> (r: Self)
        ensures
            initial_state(r),
    {
        VoiceMemoState {
            is_recording: false,
            is_processing: false,
            rounds: Vec::new(),
            selected_round: 0,
            error: None,
            model_available: false,
            recorder_available: false,
            is_downloading: false,
            downloaded_bytes: 0,
            total_bytes: None,
            round_active: false,
            pending_chunks: 0,
            backend_label: String::new(),
            model_size_label: String::new(),
        }
    }
}

impl Default for VoiceMemoState {
    fn default() -> (r: Self)
        ensures
            initial_state(r),
    {
        VoiceMemoState::new()
    }
}

/// The minutes and seconds shown for a span of `samples` samples: whole
/// seconds, split into minutes and the seconds left over.
pub fn clock(samples: usize) -> (r: (usize, usize))
    ensures
        r.0 == samples / SAMPLE_RATE / 60,
        r.1 == samples / SAMPLE_RATE % 60,
        r.1 < 60,
        r.0 * 60 + r.1 == samples / SAMPLE_RATE,
{
    let secs = samples / SAMPLE_RATE;
    (secs / 60, secs % 60)
}

/// How long a closed turn lasted, in samples (0 when it ends before it starts);
/// `None` while it is in progress.
pub fn turn_length(round: &Round) -> (r: Option<usize>)
    ensures
        r == (match round.end_sample {
            Some(end) => Some((if end >= round.start_sample { end - round.start_sample } else { 0 }) as usize),
            None => None::<usize>,
        }),
{
    match round.end_sample {
        Some(end) => Some(end.saturating_sub(round.start_sample)),
        None => None,
    }
}

/// The turn timeline as the contracts see it: the turns, the one on display,
/// whether one is in progress, and the last accepted trigger-word position.
pub struct TimelineModel {
    pub rounds: Seq<RoundModel>,
    pub selected: usize,
    pub active: bool,
    pub last: Option<usize>,
}

/// The timeline after opening a turn at `at`.
pub open spec fn opened(m: TimelineModel, at: usize) -> TimelineModel {
    TimelineModel {
        rounds: m.rounds.push(RoundModel { memos: Seq::empty(), start: at, end: None }),
        selected: m.rounds.len() as usize,
        active: true,
        ..m
    }
}

/// The timeline after closing the turn in progress (the last one) at `at`.
pub open spec fn closed(m: TimelineModel, at: usize) -> TimelineModel {
    TimelineModel {
        rounds: if m.rounds.len() > 0 {
            m.rounds.update(m.rounds.len() - 1, RoundModel { end: Some(at), ..m.rounds.last() })
        } else {
            m.rounds
        },
        active: false,
        ..m
    }
}

/// The timeline after a memo with `text` spoken at `at`, and whether it was
/// kept: it goes to the first turn containing `at`, placed by the time since
/// that turn's start; a memo outside every turn is dropped.
pub open spec fn pushed(m: TimelineModel, at: usize, text: Seq<char>) -> (TimelineModel, bool) {
    match round_index_from(m.rounds, at, 0) {
        None => (m, false),
        Some(i) => {
            let r = m.rounds[i];
            let memo = MemoModel { offset: (at - r.start) as usize, text };
            (TimelineModel { rounds: m.rounds.update(i, RoundModel { memos: insert_memo(r.memos, memo), ..r }), ..m }, true)
        },
    }
}

/// The timeline after a transcript piece `text` heard at `at`, and whether it
/// was kept: white space and separators at its ends are dropped, nothing is
/// kept when nothing is left, and otherwise the corrected text is added as a memo.
pub open spec fn pushed_text(m: TimelineModel, terms: Seq<TermModel>, at: usize, text: Seq<char>) -> (TimelineModel, bool) {
    let t = trimmed(text);
    if t.len() == 0 {
        (m, false)
    } else {
        pushed(m, at, spec_correct(terms, t))
    }
}

/// The timeline after a detected trigger word at `at`, and whether a boundary
/// moved: a detection in the cooldown, or an end word with no turn open, changes
/// nothing; otherwise it becomes the last detection and the turn opens, closes,
/// or closes and reopens at `at`.
pub open spec fn moved(m: TimelineModel, cooldown: usize, hotword: Hotword, at: usize) -> (TimelineModel, bool) {
    if cooling(m.last, cooldown, at) {
        (m, false)
    } else {
        let m2 = TimelineModel { last: Some(at), ..m };
        match boundary_for(hotword, m.active) {
            None => (m, false),
            Some(TurnBoundary::Open) => (opened(m2, at), true),
            Some(TurnBoundary::Close) => (closed(m2, at), true),
            Some(TurnBoundary::Restart) => (opened(closed(m2, at), at), true),
        }
    }
}

/// The timeline after adding the transcript pieces `items` (position, text) in
/// order, and whether any was kept.
pub open spec fn pushed_all(m: TimelineModel, terms: Seq<TermModel>, items: Seq<(usize, Seq<char>)>) -> (TimelineModel, bool)
    decreases items.len(),
{
    if items.len() == 0 {
        (m, false)
    } else {
        let (m1, k1) = pushed_all(m, terms, items.drop_last());
        let (m2, k2) = pushed_text(m1, terms, items.last().0, items.last().1);
        (m2, k1 || k2)
    }
}

/// A transcribed segment of a speech chunk, with its span in the recording.
#[derive(Debug, Clone)]
pub struct RecordedSegment {
    /// Where the segment starts (absolute sample position).
    pub start_sample: usize,
    /// Where the segment ends (absolute sample position).
    pub end_sample: usize,
    /// The transcribed text.
    pub text: String,
}

/// A segment as the contracts see it.
pub struct SegModel {
    pub start: usize,
    pub end: usize,
    pub text: Seq<char>,
}

impl View for RecordedSegment {
    type V = SegModel;

    open spec fn view(&self) -> SegModel {
        SegModel { start: self.start_sample, end: self.end_sample, text: self.text@ }
    }
}

/// The views of some segments.
pub open spec fn segs_view(segs: Seq<RecordedSegment>) -> Seq<SegModel> {
    Seq::new(segs.len(), |i: int| segs[i]@)
}

/// The segments of the current recording: those that start at or after
/// `recording_start`. Segments of an earlier recording may still come back
/// after the recording was restarted.
pub open spec fn fresh_of(segs: Seq<SegModel>, recording_start: usize) -> Seq<SegModel>
    decreases segs.len(),
{
    if segs.len() == 0 {
        Seq::empty()
    } else if segs.last().start >= recording_start {
        fresh_of(segs.drop_last(), recording_start).push(segs.last())
    } else {
        fresh_of(segs.drop_last(), recording_start)
    }
}

/// The texts of `segs` one after the other.
pub open spec fn joined_text(segs: Seq<SegModel>) -> Seq<char>
    decreases segs.len(),
{
    if segs.len() == 0 {
        Seq::empty()
    } else {
        joined_text(segs.drop_last()) + segs.last().text
    }
}

/// Where segment `i`'s text starts in the joined text.
pub open spec fn offset_of(segs: Seq<SegModel>, i: int) -> int {
    joined_text(segs.take(i)).len() as int
}

/// `a - b`, or 0 when `b` is larger.
pub open spec fn saturating_sub(a: int, b: int) -> int {
    if a >= b { a - b } else { 0 }
}

/// The smaller of two integers.
pub open spec fn min_int(a: int, b: int) -> int {
    if a <= b { a } else { b }
}

/// Position `index` of `len` characters spoken between `start` and `end`, in
/// samples: nothing is known of where in a segment each word was said, so the
/// span is shared out by characters.
pub open spec fn interp(start: int, end: int, index: int, len: int) -> int {
    if len == 0 { end } else { start + (end - start) * min_int(index, len) / len }
}

/// The recording position of character `index` of the joined text of `segs`,
/// looking from segment `i` on: the segment it falls in shares out its span by
/// characters; past the last segment it is where the last one ends.
pub open spec fn sample_from(segs: Seq<SegModel>, index: int, i: int) -> int
    decreases segs.len() - i,
{
    if i < 0 || i >= segs.len() {
        if segs.len() > 0 { segs.last().end as int } else { 0 }
    } else if index < offset_of(segs, i + 1) {
        interp(segs[i].start as int, segs[i].end as int, saturating_sub(index, offset_of(segs, i)), segs[i].text.len() as int)
    } else {
        sample_from(segs, index, i + 1)
    }
}

/// The segments as they are, each at its own start.
pub open spec fn plain_items(segs: Seq<SegModel>) -> Seq<(usize, Seq<char>)> {
    Seq::new(segs.len(), |i: int| (segs[i].start, segs[i].text))
}

/// What of each segment comes before character `word_start` of the joined text.
pub open spec fn before_items(segs: Seq<SegModel>, word_start: int) -> Seq<(usize, Seq<char>)> {
    Seq::new(segs.len(), |i: int| (segs[i].start, segs[i].text.take(min_int(saturating_sub(word_start, offset_of(segs, i)), segs[i].text.len() as int))))
}

/// What of each segment comes after character `word_end` of the joined text,
/// placed no earlier than the `boundary` the word set.
pub open spec fn after_items(segs: Seq<SegModel>, word_end: int, boundary: usize) -> Seq<(usize, Seq<char>)> {
    Seq::new(segs.len(), |i: int| (
        if segs[i].start >= boundary { segs[i].start } else { boundary },
        segs[i].text.skip(min_int(saturating_sub(word_end, offset_of(segs, i)), segs[i].text.len() as int)),
    ))
}

/// The texts of `items`, one after the other.
pub open spec fn item_texts(items: Seq<(usize, Seq<char>)>) -> Seq<char>
    decreases items.len(),
{
    if items.len() == 0 {
        Seq::empty()
    } else {
        item_texts(items.drop_last()) + items.last().1
    }
}

proof fn lemma_offset_last(segs: Seq<SegModel>)
    requires
        segs.len() > 0,
    ensures
        offset_of(segs, segs.len() - 1) == joined_text(segs.drop_last()).len(),
        forall|i: int| 0 <= i < segs.len() ==> #[trigger] offset_of(segs, i) == offset_of(segs.drop_last(), i),
{
    assert(segs.take(segs.len() - 1) =~= segs.drop_last());
    assert forall|i: int| 0 <= i < segs.len() implies #[trigger] offset_of(segs, i) == offset_of(segs.drop_last(), i) by {
        if i < segs.len() {
            assert(segs.take(i) =~= segs.drop_last().take(i));
        }
    }
}

/// Cutting at the start of the trigger word keeps all the speech before it:
/// the parts of the segments before character `word_start` of the joined
/// text, one after the other, are that text up to `word_start`.
pub proof fn before_parts_are_the_text_before_the_word(segs: Seq<SegModel>, word_start: int)
    requires
        0 <= word_start,
    ensures
        item_texts(before_items(segs, word_start)) == joined_text(segs).take(min_int(word_start, joined_text(segs).len() as int)),
    decreases segs.len(),
{
    if segs.len() == 0 {
        assert(joined_text(segs).take(0) =~= Seq::<char>::empty());
    } else {
        let d = segs.drop_last();
        before_parts_are_the_text_before_the_word(d, word_start);
        lemma_offset_last(segs);
        let items = before_items(segs, word_start);
        assert(items.drop_last() =~= before_items(d, word_start));
        let jd = joined_text(d);
        let text = segs.last().text;
        let l = jd.len() as int;
        assert(offset_of(segs, segs.len() - 1) == l);
        assert(items.last() == (segs.last().start, text.take(min_int(saturating_sub(word_start, l), text.len() as int))));
        if word_start <= l {
            assert(text.take(0) =~= Seq::<char>::empty());
            assert((jd + text).take(word_start) =~= jd.take(word_start));
        } else {
            assert((jd + text).take(min_int(word_start, l + text.len())) =~= jd + text.take(min_int(word_start - l, text.len() as int)));
            assert(jd.take(l) =~= jd);
        }
    }
}

/// Cutting at the end of the trigger word keeps all the speech after it: the
/// parts of the segments after character `word_end` of the joined text, one
/// after the other, are that text from `word_end` on.
pub proof fn after_parts_are_the_text_after_the_word(segs: Seq<SegModel>, word_end: int, boundary: usize)
    requires
        0 <= word_end,
    ensures
        item_texts(after_items(segs, word_end, boundary)) == joined_text(segs).skip(min_int(word_end, joined_text(segs).len() as int)),
    decreases segs.len(),
{
    if segs.len() == 0 {
        assert(joined_text(segs).skip(0) =~= Seq::<char>::empty());
    } else {
        let d = segs.drop_last();
        after_parts_are_the_text_after_the_word(d, word_end, boundary);
        lemma_offset_last(segs);
        let items = after_items(segs, word_end, boundary);
        assert(items.drop_last() =~= after_items(d, word_end, boundary));
        let jd = joined_text(d);
        let text = segs.last().text;
        let l = jd.len() as int;
        assert(offset_of(segs, segs.len() - 1) == l);
        assert(items.last().1 == text.skip(min_int(saturating_sub(word_end, l), text.len() as int)));
        if word_end <= l {
            assert(text.skip(0) =~= text);
            assert((jd + text).skip(word_end) =~= jd.skip(word_end) + text);
        } else {
            assert((jd + text).skip(min_int(word_end, l + text.len())) =~= jd.skip(l) + text.skip(min_int(word_end - l, text.len() as int)));
            assert(jd.skip(l) =~= Seq::<char>::empty());
        }
    }
}

/// Speech after the trigger word goes to the turn the word opened: every part
/// after the word is placed at the boundary the word set or later, at its
/// segment's own start when that is later still.
pub proof fn after_parts_follow_the_boundary(segs: Seq<SegModel>, word_end: int, boundary: usize)
    ensures
        after_items(segs, word_end, boundary).len() == segs.len(),
        forall|i: int| 0 <= i < segs.len() ==> {
            let at = (#[trigger] after_items(segs, word_end, boundary)[i]).0;
            &&& at >= boundary
            &&& at >= segs[i].start
            &&& (at == boundary || at == segs[i].start)
        },
{
}

/// Speech before the trigger word stays where it was spoken: every part
/// before the word is placed at its segment's start.
pub proof fn before_parts_stay_at_their_segments(segs: Seq<SegModel>, word_start: int)
    ensures
        before_items(segs, word_start).len() == segs.len(),
        forall|i: int| 0 <= i < segs.len() ==> (#[trigger] before_items(segs, word_start)[i]).0 == segs[i].start,
{
}

/// The timeline after taking in one chunk's segments, and whether the chunk
/// held a turn boundary or speech kept in a turn.
///
/// Segments of an earlier recording are dropped. The trigger word is looked
/// for in the joined text, since a word may be split across segments. Without
/// one, every segment becomes a memo at its start. With one, the speech before
/// the word goes to the turn being closed, the boundary moves to where the word
/// ends, and the speech after it goes to the turn just opened; the word itself
/// is no memo.
pub open spec fn applied(
    m: TimelineModel,
    terms: Seq<TermModel>,
    forms: (Seq<Seq<char>>, Seq<Seq<char>>),
    cooldown: usize,
    recording_start: usize,
    segments: Seq<SegModel>,
) -> (TimelineModel, bool) {
    let segs = fresh_of(segments, recording_start);
    if segs.len() == 0 {
        (m, false)
    } else {
        match spec_locate(forms.0, forms.1, joined_text(segs)) {
            None => pushed_all(m, terms, plain_items(segs)),
            Some(found) => {
                let boundary = sample_from(segs, found.word_end as int, 0) as usize;
                let (m1, k1) = pushed_all(m, terms, before_items(segs, found.word_start as int));
                let (m2, k2) = moved(m1, cooldown, found.hotword, boundary);
                let (m3, k3) = pushed_all(m2, terms, after_items(segs, found.word_end as int, boundary));
                (m3, k1 || k2 || k3)
            },
        }
    }
}

/// Whether `a` and `b` have the same turns at the same positions, the same
/// turn on display and in progress, and the same last detection: they differ
/// at most in the turns' memos.
pub open spec fn same_turns(a: TimelineModel, b: TimelineModel) -> bool {
    &&& a.rounds.len() == b.rounds.len()
    &&& forall|i: int| 0 <= i < a.rounds.len() ==> {
        &&& (#[trigger] a.rounds[i]).start == b.rounds[i].start
        &&& a.rounds[i].end == b.rounds[i].end
    }
    &&& a.selected == b.selected
    &&& a.active == b.active
    &&& a.last == b.last
}

/// Memos never move a turn boundary: adding transcript pieces changes nothing
/// but the turns' memos.
pub proof fn memos_keep_turn_boundaries(m: TimelineModel, terms: Seq<TermModel>, items: Seq<(usize, Seq<char>)>)
    ensures
        same_turns(pushed_all(m, terms, items).0, m),
    decreases items.len(),
{
    if items.len() > 0 {
        memos_keep_turn_boundaries(m, terms, items.drop_last());
        let m1 = pushed_all(m, terms, items.drop_last()).0;
        let t = trimmed(items.last().1);
        if t.len() > 0 {
            match round_index_from(m1.rounds, items.last().0, 0) {
                Some(i) => {
                    lemma_round_index_from(m1.rounds, items.last().0, 0);
                    let m2 = pushed(m1, items.last().0, spec_correct(terms, t)).0;
                    assert forall|j: int| 0 <= j < m2.rounds.len() implies {
                        &&& (#[trigger] m2.rounds[j]).start == m.rounds[j].start
                        &&& m2.rounds[j].end == m.rounds[j].end
                    } by {
                        assert(m1.rounds[j].start == m.rounds[j].start);
                    }
                },
                None => {},
            }
        }
    }
}

proof fn lemma_fresh_of_stale(segs: Seq<SegModel>, recording_start: usize)
    requires
        forall|i: int| 0 <= i < segs.len() ==> #[trigger] segs[i].start < recording_start,
    ensures
        fresh_of(segs, recording_start).len() == 0,
    decreases segs.len(),
{
    if segs.len() > 0 {
        let d = segs.drop_last();
        assert forall|i: int| 0 <= i < d.len() implies #[trigger] d[i].start < recording_start by {
            assert(d[i] == segs[i]);
        }
        lemma_fresh_of_stale(d, recording_start);
    }
}

/// A chunk whose segments all come from an earlier recording changes nothing
/// and keeps nothing: neither its speech nor a trigger word in it counts.
pub proof fn stale_chunk_changes_nothing(
    m: TimelineModel,
    terms: Seq<TermModel>,
    forms: (Seq<Seq<char>>, Seq<Seq<char>>),
    cooldown: usize,
    recording_start: usize,
    segments: Seq<SegModel>,
)
    requires
        forall|i: int| 0 <= i < segments.len() ==> #[trigger] segments[i].start < recording_start,
    ensures
        applied(m, terms, forms, cooldown, recording_start, segments) == (m, false),
{
    lemma_fresh_of_stale(segments, recording_start);
}

/// What placing a boundary at character `index` of the joined text of `segs`
/// needs, looking from segment `i` on: the segment it falls in does not end
/// before it starts, and sharing its span out by characters stays within
/// `usize`. No other segment's span is computed with.
pub open spec fn boundary_segment_ok(segs: Seq<SegModel>, index: int, i: int) -> bool
    decreases segs.len() - i,
{
    if i < 0 || i >= segs.len() {
        true
    } else if index < offset_of(segs, i + 1) {
        &&& segs[i].start <= segs[i].end
        &&& (segs[i].end - segs[i].start) * segs[i].text.len() <= usize::MAX
    } else {
        boundary_segment_ok(segs, index, i + 1)
    }
}

/// What taking in `segments` needs: when a trigger word is found in the
/// segments of the current recording, the segment in which it ends meets
/// [`boundary_segment_ok`].
pub open spec fn segments_ok(
    forms: (Seq<Seq<char>>, Seq<Seq<char>>),
    segments: Seq<SegModel>,
    recording_start: usize,
) -> bool {
    let segs = fresh_of(segments, recording_start);
    segs.len() > 0 ==> match spec_locate(forms.0, forms.1, joined_text(segs)) {
        Some(found) => boundary_segment_ok(segs, found.word_end as int, 0),
        None => true,
    }
}

proof fn lemma_offset_step(segs: Seq<SegModel>, i: int)
    requires
        0 <= i < segs.len(),
    ensures
        offset_of(segs, i + 1) == offset_of(segs, i) + segs[i].text.len(),
        offset_of(segs, 0) == 0,
{
    assert(segs.take(i + 1).drop_last() =~= segs.take(i));
    assert(segs.take(i + 1).last() == segs[i]);
    assert(segs.take(0) =~= Seq::<SegModel>::empty());
}

proof fn lemma_offset_total(segs: Seq<SegModel>, i: int)
    requires
        0 <= i <= segs.len(),
    ensures
        0 <= offset_of(segs, i) <= offset_of(segs, segs.len() as int),
        offset_of(segs, segs.len() as int) == joined_text(segs).len(),
    decreases segs.len() - i,
{
    assert(segs.take(segs.len() as int) =~= segs);
    if i < segs.len() {
        lemma_offset_step(segs, i);
        lemma_offset_total(segs, i + 1);
    }
}

/// The recording position of character `index` of the joined text of `segs`.
fn sample_at(segs: &Vec<RecordedSegment>, index: usize) -> (r: usize)
    requires
        boundary_segment_ok(segs_view(segs@), index as int, 0),
        joined_text(segs_view(segs@)).len() <= usize::MAX,
    ensures
        r == sample_from(segs_view(segs@), index as int, 0),
{
    let ghost sv = segs_view(segs@);
    let mut offset: usize = 0;
    let mut i: usize = 0;
    proof {
        assert(sv.take(0) =~= Seq::<SegModel>::empty());
    }
    while i < segs.len()
        invariant
            sv == segs_view(segs@),
            i <= sv.len(),
            offset == offset_of(sv, i as int),
            joined_text(sv).len() <= usize::MAX,
            sample_from(sv, index as int, 0) == sample_from(sv, index as int, i as int),
            boundary_segment_ok(sv, index as int, i as int),
        decreases sv.len() - i,
    {
        proof {
            lemma_offset_step(sv, i as int);
            lemma_offset_total(sv, i + 1);
        }
        let seg = &segs[i];
        assert(sv[i as int] == seg@);
        let len = seg.text.as_str().unicode_len();
        if index < offset + len {
            let within = if index >= offset { index - offset } else { 0 };
            let at = interpolate(seg.start_sample, seg.end_sample, within, len);
            return at;
        }
        offset = offset + len;
        i = i + 1;
    }
    if segs.len() > 0 {
        segs[segs.len() - 1].end_sample
    } else {
        0
    }
}

/// Whether placing a boundary at character `index` of the joined text of
/// `segs` stays within `usize` (see [`boundary_segment_ok`]).
fn boundary_fits(segs: &Vec<RecordedSegment>, index: usize) -> (r: bool)
    requires
        joined_text(segs_view(segs@)).len() <= usize::MAX,
    ensures
        r == boundary_segment_ok(segs_view(segs@), index as int, 0),
{
    let ghost sv = segs_view(segs@);
    let mut offset: usize = 0;
    let mut i: usize = 0;
    proof {
        assert(sv.take(0) =~= Seq::<SegModel>::empty());
    }
    while i < segs.len()
        invariant
            sv == segs_view(segs@),
            i <= sv.len(),
            offset == offset_of(sv, i as int),
            joined_text(sv).len() <= usize::MAX,
            boundary_segment_ok(sv, index as int, 0) == boundary_segment_ok(sv, index as int, i as int),
        decreases sv.len() - i,
    {
        proof {
            lemma_offset_step(sv, i as int);
            lemma_offset_total(sv, i + 1);
        }
        let seg = &segs[i];
        assert(sv[i as int] == seg@);
        let len = seg.text.as_str().unicode_len();
        if index < offset + len {
            if seg.start_sample > seg.end_sample {
                return false;
            }
            return (seg.end_sample - seg.start_sample).checked_mul(len).is_some();
        }
        offset = offset + len;
        i = i + 1;
    }
    true
}

/// The first `count` characters of `text` (all of it when it is shorter).
pub fn take_chars(text: &str, count: usize) -> (r: String)
    ensures
        r@ == text@.take(min_int(count as int, text@.len() as int)),
{
    let cs = chars_of(text);
    let n = if count < cs.len() { count } else { cs.len() };
    string_of(&cs[0..n])
}

/// `text` without its first `count` characters (empty when it is shorter).
pub fn skip_chars(text: &str, count: usize) -> (r: String)
    ensures
        r@ == text@.skip(min_int(count as int, text@.len() as int)),
{
    let cs = chars_of(text);
    let n = if count < cs.len() { count } else { cs.len() };
    let len = cs.len();
    string_of(&cs[n..len])
}

/// Position `index` of `len` characters spoken between `start` and `end`,
/// sharing the span out by characters.
pub fn interpolate(start: usize, end: usize, index: usize, len: usize) -> (r: usize)
    requires
        start <= end,
        (end - start) * len <= usize::MAX,
    ensures
        r == interp(start as int, end as int, index as int, len as int),
{
    if len == 0 {
        return end;
    }
    let k = if index < len { index } else { len };
    let span = end - start;
    assert(span * k <= span * len) by (nonlinear_arith)
        requires k <= len;
    assert((span * k) as int / (len as int) <= span) by (nonlinear_arith)
        requires k <= len, len > 0;
    start + span * k / len
}

/// The core of the voice memo feature: the turn timeline and what turns
/// transcripts into memos and turn boundaries.
pub struct VoiceMemoFeature {
    /// What is shown.
    pub state: VoiceMemoState,
    /// Where the current recording started (absolute sample position).
    pub recording_start_sample: usize,
    /// Finds trigger words in transcripts.
    pub matcher: HotwordMatcher,
    /// Turns trigger words into turn boundaries.
    pub boundary_tracker: BoundaryTracker,
    /// Writes known terms in their known spelling.
    pub corrector: VocabularyCorrector,
    /// Whether a game is in progress (as last seen by the UI).
    pub game_active: bool,
    /// The generation of the game last seen by the UI.
    pub game_generation: u64,
    /// The game generation the recording follows; a different one means the
    /// game was recreated.
    pub observed_game_generation: u64,
    /// The vocabulary of the game on display, once known.
    pub vocabulary: Option<Vocabulary>,
    /// The recognition context handed to speech recognition, once built.
    pub context: Option<String>,
    /// The vocabulary `context` was built from.
    pub context_vocabulary: Option<Vocabulary>,
}

/// The terms a corrector for vocabulary `v` holds: its known terms, longest
/// reading first.
pub open spec fn corrector_for(v: Vocabulary) -> Seq<TermModel> {
    by_length(entries_of(known_terms_of(v)))
}

impl VoiceMemoFeature {
    /// The timeline as the contracts see it.
    pub open spec fn model(&self) -> TimelineModel {
        TimelineModel {
            rounds: rounds_view(self.state.rounds@),
            selected: self.state.selected_round,
            active: self.state.round_active,
            last: self.boundary_tracker.last(),
        }
    }

    /// The feature's well-formedness: matcher and corrector are usable and
    /// every turn's memos are in speaking order.
    pub open spec fn wf(&self) -> bool {
        &&& self.matcher.wf()
        &&& self.corrector.wf()
        &&& forall|i: int| 0 <= i < self.state.rounds@.len() ==> memos_in_order(#[trigger] rounds_view(self.state.rounds@)[i].memos)
        &&& match self.vocabulary {
            Some(v) => self.corrector@ == corrector_for(v),
            None => true,
        }
    }

    /// Opens a turn at `at`.
    pub fn open_turn(&mut self, at: usize)
        requires
            old(self).wf(),
        ensures
            final(self).wf(),
            final(self).model() == opened(old(self).model(), at),
            same_setup(final(self), old(self)),
            final(self).boundary_tracker == old(self).boundary_tracker,
    {
        let ghost before = rounds_view(self.state.rounds@);
        let round = Round::new(at, None);
        self.state.rounds.push(round);
        self.state.selected_round = self.state.rounds.len() - 1;
        self.state.round_active = true;
        assert(rounds_view(self.state.rounds@) =~= before.push(RoundModel { memos: Seq::empty(), start: at, end: None }));
    }

    /// Closes the turn in progress at `at`.
    pub fn close_turn(&mut self, at: usize)
        requires
            old(self).wf(),
        ensures
            final(self).wf(),
            final(self).model() == closed(old(self).model(), at),
            same_setup(final(self), old(self)),
            final(self).boundary_tracker == old(self).boundary_tracker,
    {
        let ghost before = rounds_view(self.state.rounds@);
        if self.state.rounds.len() > 0 {
            let mut round = self.state.rounds.pop().unwrap();
            round.end_sample = Some(at);
            self.state.rounds.push(round);
            assert(rounds_view(self.state.rounds@) =~= before.update(before.len() - 1, RoundModel { end: Some(at), ..before.last() }));
        }
        self.state.round_active = false;
    }

    /// Shows turn `index`, if there is one.
    pub fn select_round(&mut self, index: usize)
        ensures
            final(self).state.selected_round == (if index < old(self).state.rounds@.len() { index } else { old(self).state.selected_round }),
            final(self).state.rounds == old(self).state.rounds,
            final(self).state.round_active == old(self).state.round_active,
            same_setup(final(self), old(self)),
            final(self).boundary_tracker == old(self).boundary_tracker,
    {
        if index < self.state.rounds.len() {
            self.state.selected_round = index;
        }
    }

    /// Drops every turn and its memos.
    pub fn clear_all_rounds(&mut self)
        ensures
            final(self).state.rounds@.len() == 0,
            final(self).state.selected_round == 0,
            !final(self).state.round_active,
            same_setup(final(self), old(self)),
            final(self).boundary_tracker == old(self).boundary_tracker,
    {
        self.state.rounds.clear();
        self.state.selected_round = 0;
        self.state.round_active = false;
    }

    /// The first turn that contains position `at`; a turn in progress has no
    /// end and takes everything from its start on.
    pub fn round_index_at(&self, at: usize) -> (r: Option<usize>)
        ensures
            r == (match round_index_from(rounds_view(self.state.rounds@), at, 0) {
                Some(i) => Some(i as usize),
                None => None::<usize>,
            }),
    {
        let ghost rs = rounds_view(self.state.rounds@);
        let mut i: usize = 0;
        while i < self.state.rounds.len()
            invariant
                rs == rounds_view(self.state.rounds@),
                i <= rs.len(),
                round_index_from(rs, at, 0) == round_index_from(rs, at, i as int),
            decreases rs.len() - i,
        {
            let round = &self.state.rounds[i];
            assert(rs[i as int] == round@);
            let inside = at >= round.start_sample && match round.end_sample {
                Some(end) => at < end,
                None => true,
            };
            if inside {
                return Some(i);
            }
            i = i + 1;
        }
        None
    }

    /// Adds a memo with `text` spoken at absolute position `at` to the turn
    /// that contains `at`, and says whether it did. Transcripts come back later
    /// than turns open and close, so the turn is chosen by position, not by the
    /// time the memo arrives; a memo outside every turn is dropped.
    pub fn push_memo_at(&mut self, at: usize, text: String) -> (r: bool)
        requires
            old(self).wf(),
        ensures
            final(self).wf(),
            (final(self).model(), r) == pushed(old(self).model(), at, text@),
            same_setup(final(self), old(self)),
            final(self).boundary_tracker == old(self).boundary_tracker,
    {
        let found = self.round_index_at(at);
        if found.is_none() {
            return false;
        }
        let index = found.unwrap();
        let ghost before = rounds_view(self.state.rounds@);
        let n = self.state.rounds.len();
        assert(before.len() == n);
        proof {
            lemma_round_index_from(before, at, 0);
        }
        let mut round = self.state.rounds.remove(index);
        assert(round@ == before[index as int]);
        let offset = at - round.start_sample;
        let ghost memos = before[index as int].memos;
        assert(round@.memos == memos);
        assert(memos_in_order(memos));
        let mut pos: usize = round.memos.len();
        while pos > 0 && round.memos[pos - 1].offset_samples > offset
            invariant
                pos <= round.memos@.len(),
                memos == Seq::new(round.memos@.len(), |i: int| round.memos@[i]@),
                forall|i: int| pos <= i < memos.len() ==> #[trigger] memos[i].offset > offset,
            decreases pos,
        {
            pos = pos - 1;
        }
        proof {
            lemma_memo_position(memos, offset);
            let p = memo_position(memos, offset);
            if (pos as int) < p {
                assert(memos[pos as int].offset > offset);
                assert(memos[pos as int].offset <= offset);
            }
            if (pos as int) > p {
                assert(memos[pos - 1].offset > offset);
                assert(round.memos@[pos - 1]@ == memos[pos - 1]);
            }
            lemma_insert_memo(memos, MemoModel { offset, text: text@ });
        }
        round.memos.insert(pos, VoiceMemo { offset_samples: offset, text });
        let ghost updated = round@;
        assert(updated.memos =~= insert_memo(memos, MemoModel { offset, text: text@ }));
        self.state.rounds.insert(index, round);
        assert(rounds_view(self.state.rounds@) =~= before.update(index as int, updated));
        true
    }

    /// Adds `text` heard at `at` as a memo if anything is left of it without
    /// white space and separators at its ends, written with known terms in their
    /// known spelling. Says whether it was kept.
    pub fn push_memo_text(&mut self, at: usize, text: &str) -> (r: bool)
        requires
            old(self).wf(),
        ensures
            final(self).wf(),
            (final(self).model(), r) == pushed_text(old(self).model(), old(self).corrector@, at, text@),
            same_setup(final(self), old(self)),
    {
        let t = trim_separators(text);
        if t.unicode_len() == 0 {
            return false;
        }
        let corrected = self.corrector.correct(t);
        self.push_memo_at(at, corrected)
    }

    /// Moves the turn boundary for a trigger word detected at `at`, and says
    /// whether it did (a detection in the cooldown, for one, is ignored).
    pub fn move_turn_boundary(&mut self, hotword: Hotword, at: usize) -> (r: bool)
        requires
            old(self).wf(),
        ensures
            final(self).wf(),
            (final(self).model(), r) == moved(old(self).model(), old(self).boundary_tracker.cooldown(), hotword, at),
            same_setup(final(self), old(self)),
    {
        let boundary = self.boundary_tracker.accept(hotword, at, self.state.round_active);
        match boundary {
            None => false,
            Some(TurnBoundary::Open) => {
                self.open_turn(at);
                true
            },
            Some(TurnBoundary::Close) => {
                self.close_turn(at);
                true
            },
            Some(TurnBoundary::Restart) => {
                self.close_turn(at);
                self.open_turn(at);
                true
            },
        }
    }
}

impl VoiceMemoFeature {
    /// Takes in what detection heard in a window of the recording that ended
    /// at `window_end`: a trigger word in it moves the turn boundary to the
    /// window's end, so the word itself stays out of the turn. Says whether a
    /// boundary moved.
    pub fn take_hotword_result(&mut self, text: &str, window_end: usize) -> (r: bool)
        requires
            old(self).wf(),
        ensures
            final(self).wf(),
            same_setup(final(self), old(self)),
            (final(self).model(), r) == (match spec_find(old(self).matcher@.0, old(self).matcher@.1, reading_chars(text@)) {
                Some(hotword) => moved(old(self).model(), old(self).boundary_tracker.cooldown(), hotword, window_end),
                None => (old(self).model(), false),
            }),
    {
        match self.matcher.find(text) {
            Some(hotword) => self.move_turn_boundary(hotword, window_end),
            None => false,
        }
    }
}

/// The segments of the current recording, in order.
fn fresh_segments(segments: Vec<RecordedSegment>, recording_start: usize) -> (r: Vec<RecordedSegment>)
    ensures
        segs_view(r@) == fresh_of(segs_view(segments@), recording_start),
{
    let ghost all = segs_view(segments@);
    let mut rest = segments;
    let mut segs: Vec<RecordedSegment> = Vec::new();
    let ghost mut consumed: int = 0;
    while rest.len() > 0
        invariant
            0 <= consumed <= all.len(),
            segs_view(rest@) == all.skip(consumed),
            segs_view(segs@) == fresh_of(all.take(consumed), recording_start),
        decreases rest@.len(),
    {
        let ghost before = segs_view(segs@);
        let ghost rest_before = rest@;
        assert(rest_before.len() > 0);
        assert(segs_view(rest_before).len() == rest_before.len());
        assert(all.skip(consumed).len() == all.len() - consumed);
        assert(consumed < all.len());
        assert(segs_view(rest_before)[0] == all.skip(consumed)[0]);
        let seg = rest.remove(0);
        assert(seg == rest_before[0]);
        assert(seg@ == all[consumed]);
        assert(all.take(consumed + 1).drop_last() =~= all.take(consumed));
        assert(all.take(consumed + 1).last() == all[consumed]);
        if seg.start_sample >= recording_start {
            segs.push(seg);
            assert(segs_view(segs@) =~= before.push(all[consumed]));
        }
        assert(rest@ =~= rest_before.subrange(1, rest_before.len() as int));
        assert forall|i: int| 0 <= i < rest@.len() implies segs_view(rest@)[i] == all.skip(consumed + 1)[i] by {
            assert(rest@[i] == rest_before[i + 1]);
            assert(segs_view(rest_before)[i + 1] == all.skip(consumed)[i + 1]);
        }
        assert(segs_view(rest@) =~= all.skip(consumed + 1));
        proof {
            consumed = consumed + 1;
        }
    }
    assert(all.take(all.len() as int) =~= all);
    segs
}

/// Copies of the segments of the current recording, in order.
fn fresh_copies(segments: &Vec<RecordedSegment>, recording_start: usize) -> (r: Vec<RecordedSegment>)
    ensures
        segs_view(r@) == fresh_of(segs_view(segments@), recording_start),
{
    let ghost all = segs_view(segments@);
    let mut out: Vec<RecordedSegment> = Vec::new();
    let mut k: usize = 0;
    while k < segments.len()
        invariant
            all == segs_view(segments@),
            k <= all.len(),
            segs_view(out@) == fresh_of(all.take(k as int), recording_start),
        decreases all.len() - k,
    {
        let ghost before = segs_view(out@);
        assert(all.take(k + 1).drop_last() =~= all.take(k as int));
        assert(all.take(k + 1).last() == all[k as int]);
        let seg = &segments[k];
        assert(all[k as int] == seg@);
        if seg.start_sample >= recording_start {
            let copy = RecordedSegment { start_sample: seg.start_sample, end_sample: seg.end_sample, text: seg.text.clone() };
            out.push(copy);
            assert(segs_view(out@) =~= before.push(all[k as int]));
        }
        k = k + 1;
    }
    assert(all.take(all.len() as int) =~= all);
    out
}

/// The segments' texts one after the other.
fn join_texts(segs: &Vec<RecordedSegment>) -> (r: String)
    ensures
        r@ == joined_text(segs_view(segs@)),
{
    let ghost sv = segs_view(segs@);
    let mut joined = String::new();
    let mut k: usize = 0;
    while k < segs.len()
        invariant
            sv == segs_view(segs@),
            k <= sv.len(),
            joined@ == joined_text(sv.take(k as int)),
        decreases sv.len() - k,
    {
        assert(sv.take(k + 1).drop_last() =~= sv.take(k as int));
        assert(sv.take(k + 1).last() == segs@[k as int]@);
        joined.append(segs[k].text.as_str());
        k = k + 1;
    }
    assert(sv.take(sv.len() as int) =~= sv);
    joined
}

/// Whether `a` and `b` agree on the trigger words, the known terms, the
/// cooldown, the recording's start and the game followed.
pub open spec fn same_config(a: &VoiceMemoFeature, b: &VoiceMemoFeature) -> bool {
    &&& a.matcher == b.matcher
    &&& a.corrector == b.corrector
    &&& a.boundary_tracker.cooldown() == b.boundary_tracker.cooldown()
    &&& a.recording_start_sample == b.recording_start_sample
    &&& a.game_active == b.game_active
    &&& a.game_generation == b.game_generation
    &&& a.observed_game_generation == b.observed_game_generation
    &&& a.vocabulary == b.vocabulary
    &&& a.context == b.context
    &&& a.context_vocabulary == b.context_vocabulary
}

/// Whether two states agree on everything but the timeline (turns, the turn
/// on display and whether one is in progress).
pub open spec fn same_status(a: VoiceMemoState, b: VoiceMemoState) -> bool {
    &&& a.is_recording == b.is_recording
    &&& a.is_processing == b.is_processing
    &&& a.error == b.error
    &&& a.model_available == b.model_available
    &&& a.recorder_available == b.recorder_available
    &&& a.is_downloading == b.is_downloading
    &&& a.downloaded_bytes == b.downloaded_bytes
    &&& a.total_bytes == b.total_bytes
    &&& a.pending_chunks == b.pending_chunks
    &&& a.backend_label == b.backend_label
    &&& a.model_size_label == b.model_size_label
}

/// Whether `a` and `b` agree on everything the timeline does not change.
pub open spec fn same_setup(a: &VoiceMemoFeature, b: &VoiceMemoFeature) -> bool {
    same_config(a, b) && same_status(a.state, b.state)
}

impl VoiceMemoFeature {
    /// Adds each segment as a memo at its own start.
    fn push_plain(&mut self, segs: &Vec<RecordedSegment>) -> (r: bool)
        requires
            old(self).wf(),
        ensures
            final(self).wf(),
            same_setup(final(self), old(self)),
            (final(self).model(), r) == pushed_all(old(self).model(), old(self).corrector@, plain_items(segs_view(segs@))),
    {
        let ghost sv = segs_view(segs@);
        let ghost m0 = self.model();
        let ghost start = *self;
        let mut kept = false;
        let mut k: usize = 0;
        while k < segs.len()
            invariant
                sv == segs_view(segs@),
                k <= sv.len(),
                self.wf(),
                same_setup(self, &start),
                (self.model(), kept) == pushed_all(m0, start.corrector@, plain_items(sv).take(k as int)),
            decreases sv.len() - k,
        {
            let ghost items = plain_items(sv).take(k + 1);
            assert(items.drop_last() =~= plain_items(sv).take(k as int));
            assert(items.last() == (segs@[k as int].start_sample, segs@[k as int].text@));
            let seg = &segs[k];
            let got = self.push_memo_text(seg.start_sample, seg.text.as_str());
            kept = kept || got;
            k = k + 1;
        }
        assert(plain_items(sv).take(sv.len() as int) =~= plain_items(sv));
        kept
    }

    /// Adds what of each segment comes before character `word_start` of the
    /// joined text, at the segment's start.
    fn push_before(&mut self, segs: &Vec<RecordedSegment>, word_start: usize) -> (r: bool)
        requires
            old(self).wf(),
            joined_text(segs_view(segs@)).len() <= usize::MAX,
        ensures
            final(self).wf(),
            same_setup(final(self), old(self)),
            (final(self).model(), r) == pushed_all(old(self).model(), old(self).corrector@, before_items(segs_view(segs@), word_start as int)),
    {
        let ghost sv = segs_view(segs@);
        let ghost m0 = self.model();
        let ghost start = *self;
        let ghost all_items = before_items(sv, word_start as int);
        let mut kept = false;
        let mut offset: usize = 0;
        let mut k: usize = 0;
        proof {
            lemma_offset_total(sv, 0);
        }
        while k < segs.len()
            invariant
                sv == segs_view(segs@),
                all_items == before_items(sv, word_start as int),
                k <= sv.len(),
                offset == offset_of(sv, k as int),
                joined_text(sv).len() <= usize::MAX,
                self.wf(),
                same_setup(self, &start),
                (self.model(), kept) == pushed_all(m0, start.corrector@, all_items.take(k as int)),
            decreases sv.len() - k,
        {
            proof {
                lemma_offset_step(sv, k as int);
                lemma_offset_total(sv, k + 1);
            }
            let ghost items = all_items.take(k + 1);
            assert(items.drop_last() =~= all_items.take(k as int));
            let seg = &segs[k];
            assert(sv[k as int] == seg@);
            let len = seg.text.as_str().unicode_len();
            let count = if word_start >= offset { word_start - offset } else { 0 };
            let piece = take_chars(seg.text.as_str(), count);
            assert(items.last() == (seg.start_sample, piece@));
            let got = self.push_memo_text(seg.start_sample, piece.as_str());
            kept = kept || got;
            offset = offset + len;
            k = k + 1;
        }
        assert(all_items.take(sv.len() as int) =~= all_items);
        kept
    }

    /// Adds what of each segment comes after character `word_end` of the joined
    /// text, no earlier than `boundary`.
    fn push_after(&mut self, segs: &Vec<RecordedSegment>, word_end: usize, boundary: usize) -> (r: bool)
        requires
            old(self).wf(),
            joined_text(segs_view(segs@)).len() <= usize::MAX,
        ensures
            final(self).wf(),
            same_setup(final(self), old(self)),
            (final(self).model(), r) == pushed_all(old(self).model(), old(self).corrector@, after_items(segs_view(segs@), word_end as int, boundary)),
    {
        let ghost sv = segs_view(segs@);
        let ghost m0 = self.model();
        let ghost start = *self;
        let ghost all_items = after_items(sv, word_end as int, boundary);
        let mut kept = false;
        let mut offset: usize = 0;
        let mut k: usize = 0;
        proof {
            lemma_offset_total(sv, 0);
        }
        while k < segs.len()
            invariant
                sv == segs_view(segs@),
                all_items == after_items(sv, word_end as int, boundary),
                k <= sv.len(),
                offset == offset_of(sv, k as int),
                joined_text(sv).len() <= usize::MAX,
                self.wf(),
                same_setup(self, &start),
                (self.model(), kept) == pushed_all(m0, start.corrector@, all_items.take(k as int)),
            decreases sv.len() - k,
        {
            proof {
                lemma_offset_step(sv, k as int);
                lemma_offset_total(sv, k + 1);
            }
            let ghost items = all_items.take(k + 1);
            assert(items.drop_last() =~= all_items.take(k as int));
            let seg = &segs[k];
            assert(sv[k as int] == seg@);
            let len = seg.text.as_str().unicode_len();
            let count = if word_end >= offset { word_end - offset } else { 0 };
            let piece = skip_chars(seg.text.as_str(), count);
            let at = if seg.start_sample >= boundary { seg.start_sample } else { boundary };
            assert(items.last() == (at, piece@));
            let got = self.push_memo_text(at, piece.as_str());
            kept = kept || got;
            offset = offset + len;
            k = k + 1;
        }
        assert(all_items.take(sv.len() as int) =~= all_items);
        kept
    }

    /// Whether `segments` can be taken in (see [`segments_ok`]): when a
    /// trigger word is found in those of the current recording, the segment
    /// it ends in does not end before it starts and sharing its span out by
    /// characters stays within `usize`.
    pub fn segments_fit(&self, segments: &Vec<RecordedSegment>) -> (r: bool)
        requires
            self.wf(),
        ensures
            r == segments_ok(self.matcher@, segs_view(segments@), self.recording_start_sample),
    {
        let segs = fresh_copies(segments, self.recording_start_sample);
        if segs.len() == 0 {
            return true;
        }
        let joined = join_texts(&segs);
        let total = joined.as_str().unicode_len();
        match self.matcher.locate(joined.as_str()) {
            None => true,
            Some(found) => boundary_fits(&segs, found.word_end),
        }
    }

    /// Takes in the segments of one transcribed chunk (positions are absolute
    /// sample positions) and says whether the chunk held a turn boundary or
    /// speech kept in a turn.
    ///
    /// The trigger word is looked for in the chunk's joined text, since
    /// punctuation splits segments and a word may be split with them. When one
    /// is found the speech is cut at the word: what comes before goes to the
    /// turn being closed, what comes after to the turn just opened, and the word
    /// itself becomes no memo. Segments of an earlier recording are dropped.
    pub fn apply_segments(&mut self, segments: Vec<RecordedSegment>) -> (r: bool)
        requires
            old(self).wf(),
            segments_ok(old(self).matcher@, segs_view(segments@), old(self).recording_start_sample),
        ensures
            final(self).wf(),
            same_setup(final(self), old(self)),
            (final(self).model(), r) == applied(
                old(self).model(),
                old(self).corrector@,
                old(self).matcher@,
                old(self).boundary_tracker.cooldown(),
                old(self).recording_start_sample,
                segs_view(segments@),
            ),
    {
        let segs = fresh_segments(segments, self.recording_start_sample);
        if segs.len() == 0 {
            return false;
        }
        let joined = join_texts(&segs);
        let total = joined.as_str().unicode_len();
        let matched = self.matcher.locate(joined.as_str());
        match matched {
            None => self.push_plain(&segs),
            Some(found) => {
                let boundary = sample_at(&segs, found.word_end);
                let kept_before = self.push_before(&segs, found.word_start);
                let moved_boundary = self.move_turn_boundary(found.hotword, boundary);
                let kept_after = self.push_after(&segs, found.word_end, boundary);
                kept_before || moved_boundary || kept_after
            },
        }
    }
}

impl VoiceMemoFeature {
    /// The feature before anything happened: no turns, the default trigger
    /// words, a cooldown of [`COOLDOWN_SECS`] and no known terms yet.
    pub fn new() -> (r: Self)
        ensures
            r.wf(),
            r.model().rounds.len() == 0,
            !r.model().active,
            r.model().last is None,
            r.model().selected == 0,
            initial_state(r.state),
            r.recording_start_sample == 0,
            r.boundary_tracker.cooldown() == SAMPLE_RATE * COOLDOWN_SECS,
            r.matcher@.0 == readings_of(seq!["ターン開始", "ターンかいし"]),
            r.matcher@.1 == readings_of(seq!["ターン終了", "ターンしゅうりょう"]),
            r.corrector@.len() == 0,
            !r.game_active,
            r.game_generation == 0,
            r.observed_game_generation == 0,
            r.vocabulary is None,
            r.context is None,
            r.context_vocabulary is None,
    {
        let start_words = default_start_words();
        let end_words = default_end_words();
        let no_terms: [&str; 0] = [];
        let corrector = VocabularyCorrector::new(&no_terms);
        assert(no_terms@ =~= Seq::<&str>::empty());
        let r = VoiceMemoFeature {
            state: VoiceMemoState::new(),
            recording_start_sample: 0,
            matcher: HotwordMatcher::new(&start_words, &end_words),
            boundary_tracker: BoundaryTracker::new(SAMPLE_RATE * COOLDOWN_SECS),
            corrector,
            game_active: false,
            game_generation: 0,
            observed_game_generation: 0,
            vocabulary: None,
            context: None,
            context_vocabulary: None,
        };
        assert(r.model().rounds =~= Seq::<RoundModel>::empty());
        r
    }
}

impl Default for VoiceMemoFeature {
    fn default() -> (r: Self)
        ensures
            r.wf(),
            r.model().rounds.len() == 0,
            !r.model().active,
            r.model().last is None,
            r.model().selected == 0,
            initial_state(r.state),
            r.recording_start_sample == 0,
            r.boundary_tracker.cooldown() == SAMPLE_RATE * COOLDOWN_SECS,
            r.matcher@.0 == readings_of(seq!["ターン開始", "ターンかいし"]),
            r.matcher@.1 == readings_of(seq!["ターン終了", "ターンしゅうりょう"]),
            r.corrector@.len() == 0,
            !r.game_active,
            r.game_generation == 0,
            r.observed_game_generation == 0,
            r.vocabulary is None,
            r.context is None,
            r.context_vocabulary is None,
    {
        VoiceMemoFeature::new()
    }
}

/// The voice memo window's operations.
#[derive(Debug, Clone, Copy, PartialEq, Eq, Structural)]
pub enum VoiceMemoAction {
    StartRound,
    EndRound,
    SelectRound(usize),
    ClearAllRounds,
    DownloadModel,
}

/// Whether the voice memo window offers `action` in state `state`: the model
/// download while there is no model and none is downloading; the rest only
/// with a recorder: ending the turn while one is open, starting one while none
/// is, clearing while none is open and there are turns, and showing another
/// turn when there are at least two.
pub open spec fn spec_action_offered(state: VoiceMemoState, action: VoiceMemoAction) -> bool {
    match action {
        VoiceMemoAction::DownloadModel => !state.model_available && !state.is_downloading,
        VoiceMemoAction::EndRound => state.recorder_available && state.round_active,
        VoiceMemoAction::StartRound => state.recorder_available && !state.round_active,
        VoiceMemoAction::ClearAllRounds => state.recorder_available && !state.round_active && state.rounds@.len() > 0,
        VoiceMemoAction::SelectRound(i) => {
            &&& state.recorder_available
            &&& state.rounds@.len() >= 2
            &&& i < state.rounds@.len()
            &&& i != state.selected_round
        },
    }
}

/// Whether the voice memo window offers `action` (see [`spec_action_offered`]).
pub fn action_offered(state: &VoiceMemoState, action: VoiceMemoAction) -> (r: bool)
    ensures
        r == spec_action_offered(*state, action),
{
    match action {
        VoiceMemoAction::DownloadModel => !state.model_available && !state.is_downloading,
        VoiceMemoAction::EndRound => state.recorder_available && state.round_active,
        VoiceMemoAction::StartRound => state.recorder_available && !state.round_active,
        VoiceMemoAction::ClearAllRounds => state.recorder_available && !state.round_active && state.rounds.len() > 0,
        VoiceMemoAction::SelectRound(i) => {
            state.recorder_available && state.rounds.len() >= 2 && i < state.rounds.len() && i != state.selected_round
        },
    }
}

/// What the recording has to do to follow the game.
#[derive(Debug, Clone, Copy, PartialEq, Eq, Structural)]
pub enum RecordingStep {
    /// Nothing.
    Keep,
    /// Start recording.
    Start,
    /// Stop recording.
    Stop,
    /// Stop the recording of the previous game and start a new one.
    Restart,
}

impl VoiceMemoFeature {
    /// The current recording position, when recording: `buffer_len` is the
    /// recorder's length, `None` without a recorder.
    pub fn recorded_position(&self, buffer_len: Option<usize>) -> (r: Option<usize>)
        ensures
            r == (if self.state.is_recording { buffer_len } else { None }),
    {
        if !self.state.is_recording {
            return None;
        }
        buffer_len
    }

    /// Opens a turn at the current recording position. Without a recording
    /// nothing happens: a turn is an interval of the recording.
    pub fn start_round(&mut self, buffer_len: Option<usize>)
        requires
            old(self).wf(),
        ensures
            final(self).wf(),
            same_setup(final(self), old(self)),
            final(self).model() == (match (if old(self).state.is_recording { buffer_len } else { None }) {
                Some(at) => opened(old(self).model(), at),
                None => old(self).model(),
            }),
            final(self).state.is_recording == old(self).state.is_recording,
    {
        if let Some(at) = self.recorded_position(buffer_len) {
            self.open_turn(at);
        }
    }

    /// Closes the turn in progress at the current recording position; the
    /// recording goes on.
    pub fn end_round(&mut self, buffer_len: Option<usize>)
        requires
            old(self).wf(),
        ensures
            final(self).wf(),
            same_setup(final(self), old(self)),
            final(self).model() == (match (if old(self).state.is_recording { buffer_len } else { None }) {
                Some(at) => closed(old(self).model(), at),
                None => old(self).model(),
            }),
            final(self).state.is_recording == old(self).state.is_recording,
    {
        if let Some(at) = self.recorded_position(buffer_len) {
            self.close_turn(at);
        }
    }

    /// Applies an action of the window. `buffer_len` is the recorder's
    /// length (`None` without one). Returns whether the model download is to
    /// be started, which is left to the caller.
    pub fn handle_action(&mut self, action: VoiceMemoAction, buffer_len: Option<usize>) -> (r: bool)
        requires
            old(self).wf(),
        ensures
            final(self).wf(),
            same_config(final(self), old(self)),
            action != VoiceMemoAction::DownloadModel ==> same_status(final(self).state, old(self).state),
            action == VoiceMemoAction::DownloadModel ==> same_status(final(self).state, (if r {
                VoiceMemoState { is_downloading: true, error: None, ..old(self).state }
            } else {
                old(self).state
            })),
            r == (action == VoiceMemoAction::DownloadModel && !old(self).state.is_downloading),
            match action {
                VoiceMemoAction::StartRound => final(self).model() == (match (if old(self).state.is_recording { buffer_len } else { None }) {
                    Some(at) => opened(old(self).model(), at),
                    None => old(self).model(),
                }),
                VoiceMemoAction::EndRound => final(self).model() == (match (if old(self).state.is_recording { buffer_len } else { None }) {
                    Some(at) => closed(old(self).model(), at),
                    None => old(self).model(),
                }),
                VoiceMemoAction::SelectRound(index) => final(self).model() == (TimelineModel {
                    selected: if index < old(self).model().rounds.len() { index } else { old(self).model().selected },
                    ..old(self).model()
                }),
                VoiceMemoAction::ClearAllRounds => final(self).model() == (TimelineModel {
                    rounds: Seq::empty(),
                    selected: 0,
                    active: false,
                    ..old(self).model()
                }),
                VoiceMemoAction::DownloadModel => final(self).model() == old(self).model(),
            },
    {
        match action {
            VoiceMemoAction::StartRound => {
                self.start_round(buffer_len);
                false
            },
            VoiceMemoAction::EndRound => {
                self.end_round(buffer_len);
                false
            },
            VoiceMemoAction::SelectRound(index) => {
                self.select_round(index);
                false
            },
            VoiceMemoAction::ClearAllRounds => {
                self.clear_all_rounds();
                assert(self.model().rounds =~= Seq::<RoundModel>::empty());
                false
            },
            VoiceMemoAction::DownloadModel => self.start_download(),
        }
    }

    /// Marks the model download as started, unless one is running already;
    /// says whether the caller is to start it.
    pub fn start_download(&mut self) -> (r: bool)
        ensures
            r == !old(self).state.is_downloading,
            final(self).state == (if r {
                VoiceMemoState { is_downloading: true, error: None, ..old(self).state }
            } else {
                old(self).state
            }),
            same_config(final(self), old(self)),
            final(self).boundary_tracker == old(self).boundary_tracker,
    {
        if self.state.is_downloading {
            return false;
        }
        self.state.is_downloading = true;
        self.state.error = None;
        true
    }

    /// Records how far the model download has come.
    pub fn download_progressed(&mut self, downloaded_bytes: u64, total_bytes: Option<u64>)
        ensures
            final(self).state == (VoiceMemoState { downloaded_bytes, total_bytes, ..old(self).state }),
            same_config(final(self), old(self)),
            final(self).boundary_tracker == old(self).boundary_tracker,
    {
        self.state.downloaded_bytes = downloaded_bytes;
        self.state.total_bytes = total_bytes;
    }

    /// Records how the model download ended: on success the model is
    /// available, and the recognition context is to be built again, since its
    /// tokens are counted by the model; on failure the error is shown.
    pub fn download_finished(&mut self, result: Result<(), String>)
        ensures
            final(self).state == (VoiceMemoState {
                is_downloading: false,
                model_available: result is Ok || old(self).state.model_available,
                error: match result {
                    Ok(()) => None,
                    Err(e) => Some(e),
                },
                ..old(self).state
            }),
            final(self).context_vocabulary == (if result is Ok { None } else { old(self).context_vocabulary }),
            final(self).context == old(self).context,
            final(self).vocabulary == old(self).vocabulary,
            final(self).matcher == old(self).matcher,
            final(self).corrector == old(self).corrector,
            final(self).boundary_tracker == old(self).boundary_tracker,
            final(self).recording_start_sample == old(self).recording_start_sample,
            final(self).game_active == old(self).game_active,
            final(self).game_generation == old(self).game_generation,
            final(self).observed_game_generation == old(self).observed_game_generation,
    {
        self.state.is_downloading = false;
        match result {
            Ok(()) => {
                self.state.model_available = true;
                self.state.error = None;
                self.context_vocabulary = None;
            },
            Err(e) => {
                self.state.error = Some(e);
            },
        }
    }

    /// Follows the game with the recording: recording runs while a game is in
    /// progress and stops when it ends. When the game was recreated, the
    /// previous game's turns and memos are dropped (turns are positions in the
    /// recording, which starts over) and its recording is stopped, whether or
    /// not it was running, then started again if a game is in progress.
    /// Returns what the caller is to do with the recorder.
    pub fn follow_game_lifecycle(&mut self) -> (r: RecordingStep)
        ensures
            final(self).observed_game_generation == old(self).game_generation,
            final(self).game_generation == old(self).game_generation,
            final(self).game_active == old(self).game_active,
            old(self).game_generation != old(self).observed_game_generation ==> {
                &&& final(self).state.rounds@.len() == 0
                &&& final(self).state.selected_round == 0
                &&& !final(self).state.round_active
                &&& r == (if old(self).game_active { RecordingStep::Restart } else { RecordingStep::Stop })
            },
            old(self).game_generation == old(self).observed_game_generation ==> {
                &&& final(self).state == old(self).state
                &&& r == (if old(self).game_active && !old(self).state.is_recording {
                    RecordingStep::Start
                } else if !old(self).game_active && old(self).state.is_recording {
                    RecordingStep::Stop
                } else {
                    RecordingStep::Keep
                })
            },
            same_status(final(self).state, old(self).state),
            final(self).matcher == old(self).matcher,
            final(self).corrector == old(self).corrector,
            final(self).boundary_tracker == old(self).boundary_tracker,
            final(self).recording_start_sample == old(self).recording_start_sample,
    {
        if self.game_generation != self.observed_game_generation {
            self.observed_game_generation = self.game_generation;
            self.clear_all_rounds();
            if self.game_active {
                RecordingStep::Restart
            } else {
                RecordingStep::Stop
            }
        } else if self.game_active && !self.state.is_recording {
            RecordingStep::Start
        } else if !self.game_active && self.state.is_recording {
            RecordingStep::Stop
        } else {
            RecordingStep::Keep
        }
    }

    /// Records that recording started at absolute position `at`: memos are
    /// placed by position, and segments from before `at` belong to an earlier
    /// recording.
    pub fn recording_started(&mut self, at: usize)
        ensures
            final(self).state == (VoiceMemoState { is_recording: true, error: None, ..old(self).state }),
            final(self).recording_start_sample == at,
            final(self).matcher == old(self).matcher,
            final(self).corrector == old(self).corrector,
            final(self).boundary_tracker == old(self).boundary_tracker,
            final(self).game_active == old(self).game_active,
            final(self).game_generation == old(self).game_generation,
            final(self).observed_game_generation == old(self).observed_game_generation,
    {
        self.state.is_recording = true;
        self.state.error = None;
        self.recording_start_sample = at;
    }

    /// Shows `message` as the last error (the recorder or the model could not
    /// be started); nothing else changes.
    pub fn show_error(&mut self, message: String)
        ensures
            final(self).state == (VoiceMemoState { error: Some(message), ..old(self).state }),
            same_config(final(self), old(self)),
            final(self).boundary_tracker == old(self).boundary_tracker,
    {
        self.state.error = Some(message);
    }

    /// Records that recording stops at `buffer_len` (the recorder's length):
    /// the turn in progress is closed there first, since a position needs a
    /// running recording.
    pub fn recording_stopped(&mut self, buffer_len: Option<usize>)
        requires
            old(self).wf(),
        ensures
            final(self).wf(),
            same_config(final(self), old(self)),
            same_status(final(self).state, VoiceMemoState { is_recording: false, ..old(self).state }),
            final(self).model() == (if old(self).state.round_active {
                match (if old(self).state.is_recording { buffer_len } else { None }) {
                    Some(at) => closed(old(self).model(), at),
                    None => old(self).model(),
                }
            } else {
                old(self).model()
            }),
    {
        if self.state.round_active {
            self.end_round(buffer_len);
        }
        self.state.is_recording = false;
    }

    /// Records that a speech chunk was sent for transcription.
    pub fn transcription_requested(&mut self)
        requires
            old(self).state.pending_chunks < usize::MAX,
        ensures
            final(self).state == (VoiceMemoState { pending_chunks: (old(self).state.pending_chunks + 1) as usize, is_processing: true, ..old(self).state }),
            same_config(final(self), old(self)),
            final(self).boundary_tracker == old(self).boundary_tracker,
    {
        self.state.pending_chunks = self.state.pending_chunks + 1;
        self.state.is_processing = true;
    }

    /// Forgets the chunks sent to a transcription thread that was replaced:
    /// their results never come back, and counting them would keep the
    /// "transcribing" notice up for good.
    pub fn transcription_restarted(&mut self)
        ensures
            final(self).state == (VoiceMemoState { pending_chunks: 0, is_processing: false, ..old(self).state }),
            same_config(final(self), old(self)),
            final(self).boundary_tracker == old(self).boundary_tracker,
    {
        self.state.pending_chunks = 0;
        self.state.is_processing = false;
    }

    /// Takes in one transcription result (results come back one per request,
    /// in order): an error is shown, segments are applied. Returns whether the
    /// chunk held a turn boundary or speech kept in a turn.
    pub fn transcription_received(&mut self, result: Result<Vec<RecordedSegment>, String>) -> (r: bool)
        requires
            old(self).wf(),
            result matches Ok(segments) ==> segments_ok(old(self).matcher@, segs_view(segments@), old(self).recording_start_sample),
        ensures
            final(self).wf(),
            same_config(final(self), old(self)),
            same_status(final(self).state, VoiceMemoState {
                pending_chunks: (if old(self).state.pending_chunks > 0 { old(self).state.pending_chunks - 1 } else { 0 }) as usize,
                error: match result {
                    Err(e) => Some(e),
                    Ok(_) => old(self).state.error,
                },
                ..old(self).state
            }),
            match result {
                Err(e) => {
                    &&& final(self).model() == old(self).model()
                    &&& !r
                },
                Ok(segments) => {
                    &&& (final(self).model(), r) == applied(
                        old(self).model(),
                        old(self).corrector@,
                        old(self).matcher@,
                        old(self).boundary_tracker.cooldown(),
                        old(self).recording_start_sample,
                        segs_view(segments@),
                    )
                },
            },
    {
        self.state.pending_chunks = if self.state.pending_chunks > 0 { self.state.pending_chunks - 1 } else { 0 };
        match result {
            Err(e) => {
                self.state.error = Some(e);
                false
            },
            Ok(segments) => self.apply_segments(segments),
        }
    }

    /// Once no chunk is waiting for transcription any more, the
    /// "transcribing" notice goes.
    pub fn transcription_polled(&mut self)
        ensures
            final(self).state == (VoiceMemoState {
                is_processing: if old(self).state.pending_chunks == 0 { false } else { old(self).state.is_processing },
                ..old(self).state
            }),
            same_config(final(self), old(self)),
            final(self).boundary_tracker == old(self).boundary_tracker,
    {
        if self.state.pending_chunks == 0 {
            self.state.is_processing = false;
        }
    }
}

impl Vocabulary {
    /// A vocabulary with the same names as `self`.
    pub fn copied(&self) -> (r: Self)
        ensures
            same_vocabulary(r, *self),
            r.room_names == self.room_names,
    {
        let mut names: Vec<String> = Vec::new();
        let mut k: usize = 0;
        while k < self.player_names.len()
            invariant
                k <= self.player_names@.len(),
                string_views(names@) == string_views(self.player_names@).take(k as int),
            decreases self.player_names@.len() - k,
        {
            let ghost before = string_views(names@);
            names.push(self.player_names[k].clone());
            assert(string_views(names@) =~= before.push(self.player_names@[k as int]@));
            assert(string_views(self.player_names@).take(k + 1) =~= string_views(self.player_names@).take(k as int).push(self.player_names@[k as int]@));
            k = k + 1;
        }
        assert(string_views(self.player_names@).take(self.player_names@.len() as int) =~= string_views(self.player_names@));
        Vocabulary { player_names: names, room_names: self.room_names }
    }
}

impl VoiceMemoFeature {
    /// Records the vocabulary of the game on display: the players' names
    /// (empty ones left out) and the room names of its map. When it changed,
    /// the corrector is rebuilt for it; color names are no part of it.
    pub fn set_vocabulary(&mut self, player_names: &[String], room_names: &'static [&'static str])
        requires
            old(self).wf(),
        ensures
            final(self).wf(),
            final(self).model() == old(self).model(),
            final(self).state == old(self).state,
            match final(self).vocabulary {
                Some(v) => {
                    &&& string_views(v.player_names@) == nonempty_names(string_views(player_names@))
                    &&& views_of(v.room_names@) == views_of(room_names@)
                    &&& final(self).corrector@ == corrector_for(v)
                },
                None => false,
            },
            final(self).matcher == old(self).matcher,
            final(self).boundary_tracker == old(self).boundary_tracker,
            final(self).recording_start_sample == old(self).recording_start_sample,
            final(self).game_active == old(self).game_active,
            final(self).game_generation == old(self).game_generation,
            final(self).observed_game_generation == old(self).observed_game_generation,
            final(self).context == old(self).context,
            final(self).context_vocabulary == old(self).context_vocabulary,
    {
        let v = Vocabulary::from_players(player_names, room_names);
        if let Some(current) = &self.vocabulary {
            if current.same_as(&v) {
                return;
            }
        }
        let terms = v.known_terms();
        self.corrector = VocabularyCorrector::new(terms.as_slice());
        self.vocabulary = Some(v);
    }

    /// Rebuilds the recognition context, within `budget` tokens as counted by
    /// `count_tokens`, when the vocabulary changed since it was last built.
    /// Counting tokens needs the model: without it (`tokenizer_ready` false)
    /// recognition goes on without a context.
    pub fn refresh_context(&mut self, tokenizer_ready: bool, budget: usize, count_tokens: impl Fn(&str) -> usize)
        requires
            forall|s: &str| call_requires(count_tokens, (s,)),
        ensures
            ({
                let rebuild = tokenizer_ready && match old(self).vocabulary {
                    Some(v) => !(old(self).context_vocabulary matches Some(c) && same_vocabulary(c, v)),
                    None => false,
                };
                &&& rebuild ==> match (final(self).context, final(self).context_vocabulary, old(self).vocabulary) {
                    (Some(c), Some(cv), Some(v)) => {
                        &&& same_vocabulary(cv, v)
                        &&& cv.room_names == v.room_names
                        &&& exists|k: int| fitted(context_items(v), budget, count_tokens, c@, k)
                    },
                    _ => false,
                }
                &&& !rebuild ==> final(self).context == old(self).context && final(self).context_vocabulary == old(self).context_vocabulary
            }),
            final(self).state == old(self).state,
            final(self).vocabulary == old(self).vocabulary,
            final(self).matcher == old(self).matcher,
            final(self).corrector == old(self).corrector,
            final(self).boundary_tracker == old(self).boundary_tracker,
            final(self).recording_start_sample == old(self).recording_start_sample,
            final(self).game_active == old(self).game_active,
            final(self).game_generation == old(self).game_generation,
            final(self).observed_game_generation == old(self).observed_game_generation,
    {
        let vocabulary = match &self.vocabulary {
            Some(v) => v,
            None => return,
        };
        if let Some(built) = &self.context_vocabulary {
            if built.same_as(vocabulary) {
                return;
            }
        }
        if !tokenizer_ready {
            return;
        }
        let context = crate::prompt::build_recognition_context(vocabulary, budget, count_tokens);
        let built = vocabulary.copied();
        let ghost v = *vocabulary;
        let ghost text = context@;
        self.context = Some(context);
        self.context_vocabulary = Some(built);
        assert(self.context->0@ == text);
        assert(exists|k: int| fitted(context_items(v), budget, count_tokens, self.context->0@, k));
    }
}

/// The corrector made for a vocabulary writes every player name in its known
/// spelling: each player name that is no English spelling and has a reading
/// is one of its terms, with that reading.
pub proof fn corrector_knows_the_players(v: Vocabulary, i: int)
    requires
        0 <= i < v.player_names@.len(),
        !crate::prompt::spec_is_english_alias(v.player_names@[i]@),
        reading_chars(v.player_names@[i]@).len() > 0,
    ensures
        corrector_for(v).contains((v.player_names@[i]@, reading_chars(v.player_names@[i]@))),
{
    crate::prompt::known_terms_are_the_japanese_names(v, v.player_names@[i]@);
    crate::vocabulary::words_with_a_reading_are_terms(known_terms_of(v), v.player_names@[i]@);
}

} // verus!
