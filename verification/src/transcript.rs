//! Cleaning the raw text of speech recognition into memo texts.
//!
//! Recognition marks sound effects in brackets (`[音楽]`, `(笑)`, `（拍手）`),
//! may emit replacement characters for bytes it could not decode, and runs
//! sentences together; each sentence becomes a memo of its own.

use vstd::prelude::*;
use crate::hotword::SAMPLE_RATE;
use crate::kana::{is_white_space, spec_is_white_space};
use crate::prompt::string_views;
use crate::text::{chars_of, push_char, string_of};

verus! {

/// The first position at or after `from` where `s` holds `c`.
pub open spec fn find_from(s: Seq<char>, c: char, from: int) -> Option<int>
    decreases s.len() - from,
{
    if from < 0 || from >= s.len() {
        None
    } else if s[from] == c {
        Some(from)
    } else {
        find_from(s, c, from + 1)
    }
}

pub proof fn lemma_find_from(s: Seq<char>, c: char, from: int)
    requires
        0 <= from,
    ensures
        find_from(s, c, from) matches Some(k) ==> {
            &&& from <= k < s.len()
            &&& s[k] == c
            &&& forall|i: int| from <= i < k ==> s[i] != c
        },
        find_from(s, c, from) is None ==> forall|i: int| from <= i < s.len() ==> s[i] != c,
    decreases s.len() - from,
{
    if from < s.len() && s[from] != c {
        lemma_find_from(s, c, from + 1);
    }
}

/// `s` with its bracketed spans removed, the first one first: each time, from
/// the first `open` to the first `close` after it, both included. An `open`
/// with no `close` after it ends the removal.
pub open spec fn without_pairs(s: Seq<char>, open: char, close: char) -> Seq<char>
    decreases s.len(),
{
    match find_from(s, open, 0) {
        None => s,
        Some(i) => match find_from(s, close, i) {
            None => s,
            Some(j) => {
                proof {
                    lemma_find_from(s, open, 0);
                    lemma_find_from(s, close, i);
                }
                without_pairs(s.take(i) + s.skip(j + 1), open, close)
            },
        },
    }
}

/// `s` without its leading white space.
pub open spec fn ws_front(s: Seq<char>) -> Seq<char>
    decreases s.len(),
{
    if s.len() > 0 && spec_is_white_space(s[0]) {
        ws_front(s.drop_first())
    } else {
        s
    }
}

/// `s` without its trailing white space.
pub open spec fn ws_back(s: Seq<char>) -> Seq<char>
    decreases s.len(),
{
    if s.len() > 0 && spec_is_white_space(s.last()) {
        ws_back(s.drop_last())
    } else {
        s
    }
}

/// `s` without white space at either end (as `str::trim`).
pub open spec fn ws_trimmed(s: Seq<char>) -> Seq<char> {
    ws_back(ws_front(s))
}

/// `s` without sound effects: spans in `[]`, then in `()`, then in `（）`, and
/// white space at either end.
pub open spec fn spec_remove_sound_effects(s: Seq<char>) -> Seq<char> {
    ws_trimmed(without_pairs(without_pairs(without_pairs(s, '[', ']'), '(', ')'), '（', '）'))
}

proof fn lemma_ws_front(s: Seq<char>, a: int)
    requires
        0 <= a <= s.len(),
        forall|i: int| 0 <= i < a ==> spec_is_white_space(#[trigger] s[i]),
        a == s.len() || !spec_is_white_space(s[a]),
    ensures
        ws_front(s) == s.subrange(a, s.len() as int),
    decreases a,
{
    if a == 0 {
        assert(s.subrange(0, s.len() as int) =~= s);
    } else {
        let rest = s.drop_first();
        assert forall|i: int| 0 <= i < a - 1 implies spec_is_white_space(#[trigger] rest[i]) by {
            assert(rest[i] == s[i + 1]);
        }
        lemma_ws_front(rest, a - 1);
        assert(rest.subrange(a - 1, rest.len() as int) =~= s.subrange(a, s.len() as int));
    }
}

proof fn lemma_ws_back(s: Seq<char>, b: int)
    requires
        0 <= b <= s.len(),
        forall|i: int| b <= i < s.len() ==> spec_is_white_space(#[trigger] s[i]),
        b == 0 || !spec_is_white_space(s[b - 1]),
    ensures
        ws_back(s) == s.take(b),
    decreases s.len() - b,
{
    if b == s.len() {
        assert(s.take(b) =~= s);
    } else {
        let rest = s.drop_last();
        assert forall|i: int| b <= i < rest.len() implies spec_is_white_space(#[trigger] rest[i]) by {
            assert(rest[i] == s[i]);
        }
        lemma_ws_back(rest, b);
        assert(rest.take(b) =~= s.take(b));
    }
}

/// Whether `s` holds an `open` with a `close` somewhere after it.
pub open spec fn has_pair(s: Seq<char>, open: char, close: char) -> bool {
    exists|i: int, j: int| 0 <= i < j < s.len() && #[trigger] s[i] == open && #[trigger] s[j] == close
}

proof fn lemma_cut_keeps_no_pair(s: Seq<char>, i: int, j: int, open: char, close: char)
    requires
        0 <= i <= j < s.len(),
        !has_pair(s, open, close),
    ensures
        !has_pair(s.take(i) + s.skip(j + 1), open, close),
{
    let t = s.take(i) + s.skip(j + 1);
    if has_pair(t, open, close) {
        let (a, b) = choose|a: int, b: int| 0 <= a < b < t.len() && #[trigger] t[a] == open && #[trigger] t[b] == close;
        let fa = if a < i { a } else { a + j + 1 - i };
        let fb = if b < i { b } else { b + j + 1 - i };
        assert(t[a] == s[fa]);
        assert(t[b] == s[fb]);
        assert(0 <= fa < fb < s.len() && s[fa] == open && s[fb] == close);
    }
}

proof fn lemma_without_pairs_keeps_no_pair(s: Seq<char>, o: char, c: char, open: char, close: char)
    requires
        !has_pair(s, open, close),
    ensures
        !has_pair(without_pairs(s, o, c), open, close),
    decreases s.len(),
{
    match find_from(s, o, 0) {
        None => {},
        Some(i) => match find_from(s, c, i) {
            None => {},
            Some(j) => {
                lemma_find_from(s, o, 0);
                lemma_find_from(s, c, i);
                lemma_cut_keeps_no_pair(s, i, j, open, close);
                lemma_without_pairs_keeps_no_pair(s.take(i) + s.skip(j + 1), o, c, open, close);
            },
        },
    }
}

proof fn lemma_without_pairs_clears(s: Seq<char>, open: char, close: char)
    requires
        open != close,
    ensures
        !has_pair(without_pairs(s, open, close), open, close),
    decreases s.len(),
{
    lemma_find_from(s, open, 0);
    match find_from(s, open, 0) {
        None => {
            if has_pair(s, open, close) {
                let (a, b) = choose|a: int, b: int| 0 <= a < b < s.len() && #[trigger] s[a] == open && #[trigger] s[b] == close;
                assert(s[a] != open);
            }
        },
        Some(i) => {
            lemma_find_from(s, close, i);
            match find_from(s, close, i) {
                None => {
                    if has_pair(s, open, close) {
                        let (a, b) = choose|a: int, b: int| 0 <= a < b < s.len() && #[trigger] s[a] == open && #[trigger] s[b] == close;
                        if a < i {
                            assert(s[a] != open);
                        } else {
                            assert(s[b] != close);
                        }
                    }
                },
                Some(j) => {
                    lemma_without_pairs_clears(s.take(i) + s.skip(j + 1), open, close);
                },
            }
        },
    }
}

proof fn lemma_ws_keeps_no_pair(s: Seq<char>, open: char, close: char)
    requires
        !has_pair(s, open, close),
    ensures
        !has_pair(ws_front(s), open, close),
        !has_pair(ws_back(s), open, close),
    decreases s.len(),
{
    if s.len() > 0 {
        let f = s.drop_first();
        let l = s.drop_last();
        if has_pair(f, open, close) {
            let (a, b) = choose|a: int, b: int| 0 <= a < b < f.len() && #[trigger] f[a] == open && #[trigger] f[b] == close;
            assert(s[a + 1] == open && s[b + 1] == close);
        }
        if has_pair(l, open, close) {
            let (a, b) = choose|a: int, b: int| 0 <= a < b < l.len() && #[trigger] l[a] == open && #[trigger] l[b] == close;
            assert(s[a] == open && s[b] == close);
        }
        lemma_ws_keeps_no_pair(f, open, close);
        lemma_ws_keeps_no_pair(l, open, close);
    }
}

proof fn lemma_trim_keeps_no_pair(s: Seq<char>, open: char, close: char)
    requires
        !has_pair(s, open, close),
    ensures
        !has_pair(ws_trimmed(s), open, close),
{
    lemma_ws_keeps_no_pair(s, open, close);
    lemma_ws_keeps_no_pair(ws_front(s), open, close);
}

/// No sound effect is left: in what `remove_sound_effects` gives, no opening
/// bracket of any of the three kinds has its closing bracket after it.
pub proof fn no_sound_effect_left(s: Seq<char>)
    ensures
        !has_pair(spec_remove_sound_effects(s), '[', ']'),
        !has_pair(spec_remove_sound_effects(s), '(', ')'),
        !has_pair(spec_remove_sound_effects(s), '（', '）'),
{
    let s1 = without_pairs(s, '[', ']');
    let s2 = without_pairs(s1, '(', ')');
    let s3 = without_pairs(s2, '（', '）');
    lemma_without_pairs_clears(s, '[', ']');
    lemma_without_pairs_keeps_no_pair(s1, '(', ')', '[', ']');
    lemma_without_pairs_keeps_no_pair(s2, '（', '）', '[', ']');
    lemma_without_pairs_clears(s1, '(', ')');
    lemma_without_pairs_keeps_no_pair(s2, '（', '）', '(', ')');
    lemma_without_pairs_clears(s2, '（', '）');
    lemma_trim_keeps_no_pair(s3, '[', ']');
    lemma_trim_keeps_no_pair(s3, '(', ')');
    lemma_trim_keeps_no_pair(s3, '（', '）');
}

/// Where the text of `cs` without white space at its ends starts and ends.
fn ws_bounds(cs: &[char]) -> (r: (usize, usize))
    ensures
        r.0 <= r.1 <= cs@.len(),
        cs@.subrange(r.0 as int, r.1 as int) == ws_trimmed(cs@),
{
    let n = cs.len();
    let mut a: usize = 0;
    while a < n && is_white_space(cs[a])
        invariant
            n == cs@.len(),
            a <= n,
            forall|i: int| 0 <= i < a ==> spec_is_white_space(#[trigger] cs@[i]),
        decreases n - a,
    {
        a = a + 1;
    }
    let mut b: usize = n;
    while b > a && is_white_space(cs[b - 1])
        invariant
            n == cs@.len(),
            a <= b <= n,
            forall|i: int| b <= i < n ==> spec_is_white_space(#[trigger] cs@[i]),
        decreases b,
    {
        b = b - 1;
    }
    proof {
        let s = cs@;
        lemma_ws_front(s, a as int);
        let u = s.subrange(a as int, n as int);
        assert forall|i: int| b - a <= i < u.len() implies spec_is_white_space(#[trigger] u[i]) by {
            assert(u[i] == s[a + i]);
        }
        if b > a {
            assert(u[b - a - 1] == s[b - 1]);
        }
        lemma_ws_back(u, b - a);
        assert(u.take(b - a) =~= s.subrange(a as int, b as int));
    }
    (a, b)
}

/// The first position at or after `from` where `cs` holds `c`.
fn find_char(cs: &Vec<char>, c: char, from: usize) -> (r: Option<usize>)
    ensures
        match r {
            Some(k) => find_from(cs@, c, from as int) == Some(k as int),
            None => find_from(cs@, c, from as int) is None,
        },
{
    let mut k = from;
    while k < cs.len()
        invariant
            from <= k,
            find_from(cs@, c, from as int) == find_from(cs@, c, k as int),
        decreases cs@.len() - k,
    {
        if cs[k] == c {
            return Some(k);
        }
        k = k + 1;
    }
    None
}

/// `cs` without the characters from `i` to `j`, both included.
fn cut(cs: &Vec<char>, i: usize, j: usize) -> (r: Vec<char>)
    requires
        i <= j < cs@.len(),
    ensures
        r@ == cs@.take(i as int) + cs@.skip(j + 1),
{
    let mut out: Vec<char> = Vec::new();
    let mut k: usize = 0;
    while k < i
        invariant
            k <= i <= j < cs@.len(),
            out@ == cs@.take(k as int),
        decreases i - k,
    {
        assert(cs@.take(k + 1) =~= cs@.take(k as int).push(cs@[k as int]));
        out.push(cs[k]);
        k = k + 1;
    }
    let n = cs.len();
    let mut k: usize = j + 1;
    while k < n
        invariant
            i <= j < k <= n,
            n == cs@.len(),
            out@ == cs@.take(i as int) + cs@.subrange(j + 1, k as int),
        decreases cs@.len() - k,
    {
        assert(cs@.subrange(j + 1, k + 1) =~= cs@.subrange(j + 1, k as int).push(cs@[k as int]));
        out.push(cs[k]);
        k = k + 1;
    }
    assert(cs@.subrange(j + 1, cs@.len() as int) =~= cs@.skip(j + 1));
    out
}

/// `cs` with its spans from `open` to `close` removed (see [`without_pairs`]).
fn strip_pairs(cs: Vec<char>, open: char, close: char) -> (r: Vec<char>)
    ensures
        r@ == without_pairs(cs@, open, close),
{
    let ghost target = without_pairs(cs@, open, close);
    let mut cur = cs;
    loop
        invariant
            without_pairs(cur@, open, close) == target,
            target == without_pairs(cs@, open, close),
        decreases cur@.len(),
    {
        let i = match find_char(&cur, open, 0) {
            None => {
                assert(without_pairs(cur@, open, close) == cur@);
                return cur;
            },
            Some(i) => i,
        };
        let j = match find_char(&cur, close, i) {
            None => {
                assert(without_pairs(cur@, open, close) == cur@);
                return cur;
            },
            Some(j) => j,
        };
        proof {
            lemma_find_from(cur@, open, 0);
            lemma_find_from(cur@, close, i as int);
        }
        cur = cut(&cur, i, j);
    }
}

/// `text` without sound effects: each span from `[` to the next `]` is
/// removed, then each from `(` to `)`, then each from `（` to `）`, and white
/// space at either end goes. An opening bracket that is never closed stays.
pub fn remove_sound_effects(text: &str) -> (r: String)
    ensures
        r@ == spec_remove_sound_effects(text@),
{
    let cs = chars_of(text);
    let cs = strip_pairs(cs, '[', ']');
    let cs = strip_pairs(cs, '(', ')');
    let cs = strip_pairs(cs, '（', '）');
    let (a, b) = ws_bounds(cs.as_slice());
    string_of(&cs[a..b])
}

/// `s` without the replacement characters that stand for undecodable bytes.
pub open spec fn without_replacement(s: Seq<char>) -> Seq<char>
    decreases s.len(),
{
    if s.len() == 0 {
        s
    } else if s.last() == '\u{FFFD}' {
        without_replacement(s.drop_last())
    } else {
        without_replacement(s.drop_last()).push(s.last())
    }
}

/// The sentences read so far and the one being read, after character `c`:
/// `。` ends a sentence, which is kept, trimmed and with its `。`, unless
/// nothing is left of it.
pub open spec fn sentence_step(st: (Seq<Seq<char>>, Seq<char>), c: char) -> (Seq<Seq<char>>, Seq<char>) {
    if c == '。' {
        let piece = ws_trimmed(st.1);
        (if piece.len() > 0 { st.0.push(piece.push('。')) } else { st.0 }, Seq::empty())
    } else {
        (st.0, st.1.push(c))
    }
}

/// The sentences of `s` ended so far and the one being read.
pub open spec fn sentence_state(s: Seq<char>) -> (Seq<Seq<char>>, Seq<char>)
    decreases s.len(),
{
    if s.len() == 0 {
        (Seq::empty(), Seq::empty())
    } else {
        sentence_step(sentence_state(s.drop_last()), s.last())
    }
}

/// The sentences of `s`: its pieces between `。`, each trimmed, those ended by
/// `。` with it, and empty ones dropped.
pub open spec fn sentences(s: Seq<char>) -> Seq<Seq<char>> {
    let st = sentence_state(s);
    let piece = ws_trimmed(st.1);
    if piece.len() > 0 { st.0.push(piece) } else { st.0 }
}

/// The memo texts that a raw transcript gives.
pub open spec fn spec_memo_texts(raw: Seq<char>) -> Seq<Seq<char>> {
    sentences(spec_remove_sound_effects(without_replacement(raw)))
}

proof fn lemma_sentences_not_empty(s: Seq<char>)
    ensures
        forall|i: int| 0 <= i < sentence_state(s).0.len() ==> (#[trigger] sentence_state(s).0[i]).len() > 0,
    decreases s.len(),
{
    if s.len() > 0 {
        lemma_sentences_not_empty(s.drop_last());
        let st = sentence_state(s.drop_last());
        let next = sentence_state(s);
        assert forall|i: int| 0 <= i < next.0.len() implies (#[trigger] next.0[i]).len() > 0 by {
            if i < st.0.len() {
                assert(next.0[i] == st.0[i]);
            }
        }
    }
}

/// No memo text is empty.
pub proof fn memo_texts_are_not_empty(raw: Seq<char>)
    ensures
        forall|i: int| 0 <= i < spec_memo_texts(raw).len() ==> (#[trigger] spec_memo_texts(raw)[i]).len() > 0,
{
    lemma_sentences_not_empty(spec_remove_sound_effects(without_replacement(raw)));
}

/// The trimmed text of `current`, if anything is left, as a string.
fn trimmed_piece(current: &Vec<char>) -> (r: Option<String>)
    ensures
        match r {
            Some(s) => s@ == ws_trimmed(current@) && s@.len() > 0,
            None => ws_trimmed(current@).len() == 0,
        },
{
    let (a, b) = ws_bounds(current.as_slice());
    if a == b {
        return None;
    }
    Some(string_of(&current.as_slice()[a..b]))
}

/// The memo texts of a raw transcript: replacement characters and sound
/// effects are dropped, and the rest is cut into sentences at `。`, each
/// trimmed and ending in the `。` that ended it; empty sentences are dropped.
pub fn memo_texts(raw: &str) -> (r: Vec<String>)
    ensures
        string_views(r@) == spec_memo_texts(raw@),
{
    let cs = chars_of(raw);
    let mut clean = String::new();
    let mut k: usize = 0;
    while k < cs.len()
        invariant
            k <= cs@.len(),
            clean@ == without_replacement(cs@.take(k as int)),
        decreases cs@.len() - k,
    {
        assert(cs@.take(k + 1).drop_last() =~= cs@.take(k as int));
        if cs[k] != '\u{FFFD}' {
            push_char(&mut clean, cs[k]);
        }
        k = k + 1;
    }
    assert(cs@.take(cs@.len() as int) =~= cs@);
    let text = remove_sound_effects(clean.as_str());
    let ts = chars_of(text.as_str());
    let mut out: Vec<String> = Vec::new();
    let mut current: Vec<char> = Vec::new();
    let mut k: usize = 0;
    while k < ts.len()
        invariant
            k <= ts@.len(),
            (string_views(out@), current@) == sentence_state(ts@.take(k as int)),
        decreases ts@.len() - k,
    {
        assert(ts@.take(k + 1).drop_last() =~= ts@.take(k as int));
        let c = ts[k];
        if c == '。' {
            let ghost before = string_views(out@);
            match trimmed_piece(&current) {
                Some(mut piece) => {
                    push_char(&mut piece, '。');
                    out.push(piece);
                    assert(string_views(out@) =~= before.push(piece@));
                },
                None => {},
            }
            current = Vec::new();
            assert(current@ =~= Seq::<char>::empty());
        } else {
            current.push(c);
        }
        k = k + 1;
    }
    assert(ts@.take(ts@.len() as int) =~= ts@);
    let ghost before = string_views(out@);
    match trimmed_piece(&current) {
        Some(piece) => {
            out.push(piece);
            assert(string_views(out@) =~= before.push(piece@));
        },
        None => {},
    }
    out
}

/// Whether the span from `start` to `end` of a recording of `total` samples
/// is worth transcribing: it lies within the recording and lasts at least
/// half a second.
pub fn span_to_transcribe(start: usize, end: usize, total: usize) -> (r: bool)
    ensures
        r == (start < end && end <= total && end - start >= SAMPLE_RATE / 2),
{
    if end <= start || end > total {
        return false;
    }
    end - start >= SAMPLE_RATE / 2
}

/// Where the speech model is downloaded from.
pub fn get_model_download_url() -> (r: &'static str)
    ensures
        r@ == "https://huggingface.co/ggerganov/whisper.cpp/resolve/main/ggml-small.bin"@,
{
    "https://huggingface.co/ggerganov/whisper.cpp/resolve/main/ggml-small.bin"
}

/// The approximate size of the speech model, for the download prompt.
pub fn get_model_size_description() -> (r: &'static str)
    ensures
        r@ == "約466MB"@,
{
    "約466MB"
}

/// How far the model download has come.
#[derive(Debug, Clone)]
pub struct DownloadProgress {
    /// Bytes downloaded so far.
    pub downloaded_bytes: u64,
    /// The size of the download, when the server gave it.
    pub total_bytes: Option<u64>,
}

} // verus!
