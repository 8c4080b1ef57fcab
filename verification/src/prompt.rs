//! The recognition context (the prompt handed to speech recognition).
//!
//! Player names are the words that most need recognising and the ones the
//! model finds hardest. So that they are not cut when the prompt is over its
//! budget, the less important room names go first.

use vstd::prelude::*;
use crate::hotword::prompt_words;
use crate::text::push_char;

verus! {

/// Whether a name is written only in ASCII letters and spaces: the English
/// spelling of a room. Such names hardly occur in Japanese speech.
pub open spec fn spec_is_english_alias(name: Seq<char>) -> bool {
    forall|i: int| 0 <= i < name.len() ==> {
        let c = #[trigger] name[i];
        ('a' <= c && c <= 'z') || ('A' <= c && c <= 'Z') || c == ' '
    }
}

/// Whether `name` is the English spelling of a room.
///
/// Such names are not worth prompt budget; mapping heard English spellings is
/// left to vocabulary correction.
pub fn is_english_alias(name: &str) -> (r: bool)
    ensures
        r == spec_is_english_alias(name@),
{
    let cs = crate::text::chars_of(name);
    let mut k: usize = 0;
    while k < cs.len()
        invariant
            cs@ == name@,
            k <= cs@.len(),
            forall|i: int| 0 <= i < k ==> {
                let c = #[trigger] name@[i];
                ('a' <= c && c <= 'z') || ('A' <= c && c <= 'Z') || c == ' '
            },
        decreases cs@.len() - k,
    {
        let c = cs[k];
        if !(('a' <= c && c <= 'z') || ('A' <= c && c <= 'Z') || c == ' ') {
            return false;
        }
        k = k + 1;
    }
    true
}

/// The game's own terms.
pub open spec fn spec_game_terms() -> Seq<&'static str> {
    seq!["サボ", "コミュ", "停電", "酸素", "原子炉", "ドア", "湧き", "ベント", "タスク", "会議"]
}

/// Terms particular to Among Us: sabotages, spawning, vents, tasks and meetings.
pub fn game_terms() -> (r: [&'static str; 10])
    ensures
        r@ == spec_game_terms(),
{
    ["サボ", "コミュ", "停電", "酸素", "原子炉", "ドア", "湧き", "ベント", "タスク", "会議"]
}

/// The prompt text for `items`: the items joined by "、".
pub open spec fn joined(items: Seq<Seq<char>>) -> Seq<char>
    decreases items.len(),
{
    if items.len() == 0 {
        Seq::empty()
    } else if items.len() == 1 {
        items[0]
    } else {
        joined(items.drop_last()).push('、') + items.last()
    }
}

/// The views of some strings.
pub open spec fn views_of(items: Seq<&str>) -> Seq<Seq<char>> {
    Seq::new(items.len(), |i: int| items[i]@)
}

/// The items `items[k..]` joined by "、".
fn join_from(items: &[&str], k: usize) -> (r: String)
    requires
        k <= items@.len(),
    ensures
        r@ == joined(views_of(items@).skip(k as int)),
{
    let mut out = String::new();
    let mut i: usize = k;
    while i < items.len()
        invariant
            k <= i <= items@.len(),
            out@ == joined(views_of(items@).subrange(k as int, i as int)),
        decreases items@.len() - i,
    {
        let ghost done = views_of(items@).subrange(k as int, i as int);
        let ghost next = views_of(items@).subrange(k as int, i + 1);
        assert(next.drop_last() =~= done);
        if i > k {
            push_char(&mut out, '、');
        }
        out.append(items[i]);
        i = i + 1;
    }
    assert(views_of(items@).subrange(k as int, items@.len() as int) =~= views_of(items@).skip(k as int));
    out
}

/// Whether `n` is a token count that `count_tokens` may give for `text`.
pub open spec fn counted(count_tokens: impl Fn(&str) -> usize, text: Seq<char>, n: usize) -> bool {
    exists|s: &str| s@ == text && #[trigger] call_ensures(count_tokens, (s,), n)
}

/// Whether `count_tokens` may count `text` as over `budget` tokens.
pub open spec fn over_budget(count_tokens: impl Fn(&str) -> usize, text: Seq<char>, budget: usize) -> bool {
    exists|n: usize| n > budget && #[trigger] counted(count_tokens, text, n)
}

/// Whether `count_tokens` may count `text` as within `budget` tokens.
pub open spec fn within_budget(count_tokens: impl Fn(&str) -> usize, text: Seq<char>, budget: usize) -> bool {
    exists|n: usize| n <= budget && #[trigger] counted(count_tokens, text, n)
}

/// Whether `r` is what dropping leading items from `items` until the prompt
/// fits the budget gives: `items[k..]` joined, where every longer suffix was
/// counted over budget and this one within it (or nothing is left).
pub open spec fn fitted(items: Seq<Seq<char>>, budget: usize, count_tokens: impl Fn(&str) -> usize, r: Seq<char>, k: int) -> bool {
    &&& 0 <= k <= items.len()
    &&& r == joined(items.skip(k))
    &&& forall|j: int| 0 <= j < k ==> #[trigger] over_budget(count_tokens, joined(items.skip(j)), budget)
    &&& k < items.len() ==> within_budget(count_tokens, r, budget)
}

/// Builds a prompt from `items`, ordered from least to most important: the
/// items are joined by "、" and, while the prompt is over `budget` tokens,
/// items are dropped from the front. The most important items therefore stand
/// at the end and are the last to go.
pub fn build_prompt(items: &[&str], budget: usize, count_tokens: impl Fn(&str) -> usize) -> (r: String)
    requires
        forall|s: &str| call_requires(count_tokens, (s,)),
    ensures
        exists|k: int| fitted(views_of(items@), budget, count_tokens, r@, k),
{
    let mut k: usize = 0;
    while k < items.len()
        invariant
            k <= items@.len(),
            forall|s: &str| call_requires(count_tokens, (s,)),
            forall|j: int| 0 <= j < k ==> #[trigger] over_budget(count_tokens, joined(views_of(items@).skip(j)), budget),
        decreases items@.len() - k,
    {
        let prompt = join_from(items, k);
        let n = count_tokens(prompt.as_str());
        if n <= budget {
            assert(counted(count_tokens, prompt@, n));
            assert(within_budget(count_tokens, prompt@, budget));
            assert(fitted(views_of(items@), budget, count_tokens, prompt@, k as int));
            return prompt;
        }
        assert(counted(count_tokens, joined(views_of(items@).skip(k as int)), n));
        assert(over_budget(count_tokens, joined(views_of(items@).skip(k as int)), budget));
        k = k + 1;
    }
    let prompt = join_from(items, k);
    assert(fitted(views_of(items@), budget, count_tokens, prompt@, k as int));
    prompt
}

/// The views of some strings.
pub open spec fn string_views(items: Seq<String>) -> Seq<Seq<char>> {
    Seq::new(items.len(), |i: int| items[i]@)
}

/// `items` without the English spellings.
pub open spec fn without_english(items: Seq<Seq<char>>) -> Seq<Seq<char>>
    decreases items.len(),
{
    if items.len() == 0 {
        Seq::empty()
    } else if spec_is_english_alias(items.last()) {
        without_english(items.drop_last())
    } else {
        without_english(items.drop_last()).push(items.last())
    }
}

/// The vocabulary a recognition context is built from.
///
/// Rebuilding the context runs the tokenizer, so it is only done when the
/// vocabulary changes; vocabularies can be compared for that.
#[derive(Debug, Clone, PartialEq, Eq)]
pub struct Vocabulary {
    /// The players' names; empty names are left out.
    pub player_names: Vec<String>,
    /// The room names of the current map. English spellings may be among them.
    pub room_names: &'static [&'static str],
}

/// Appends to `out` the items of `items` that are not English spellings, in order.
fn push_japanese<'a>(out: &mut Vec<&'a str>, items: &[&'a str])
    ensures
        views_of(final(out)@) == views_of(old(out)@) + without_english(views_of(items@)),
{
    let ghost start = views_of(out@);
    let mut k: usize = 0;
    while k < items.len()
        invariant
            k <= items@.len(),
            views_of(out@) == start + without_english(views_of(items@).take(k as int)),
        decreases items@.len() - k,
    {
        let ghost done = views_of(items@).take(k as int);
        assert(views_of(items@).take(k + 1).drop_last() =~= done);
        assert(views_of(items@).take(k + 1).last() == items@[k as int]@);
        let ghost before = views_of(out@);
        if !is_english_alias(items[k]) {
            out.push(items[k]);
            assert(views_of(out@) =~= before.push(items@[k as int]@));
        }
        k = k + 1;
    }
    assert(views_of(items@).take(items@.len() as int) =~= views_of(items@));
}

/// Appends to `out` every item of `items`, in order.
fn push_all<'a>(out: &mut Vec<&'a str>, items: &[&'a str])
    ensures
        views_of(final(out)@) == views_of(old(out)@) + views_of(items@),
{
    let ghost start = views_of(out@);
    let mut k: usize = 0;
    while k < items.len()
        invariant
            k <= items@.len(),
            views_of(out@) == start + views_of(items@).take(k as int),
        decreases items@.len() - k,
    {
        let ghost before = views_of(out@);
        out.push(items[k]);
        assert(views_of(out@) =~= before.push(items@[k as int]@));
        assert(views_of(items@).take(k + 1) =~= views_of(items@).take(k as int).push(items@[k as int]@));
        k = k + 1;
    }
    assert(views_of(items@).take(items@.len() as int) =~= views_of(items@));
}

/// The terms vocabulary correction writes in their known spelling: the player
/// names, the game terms and the room names, without English spellings.
pub open spec fn known_terms_of(v: Vocabulary) -> Seq<Seq<char>> {
    without_english(string_views(v.player_names@) + views_of(spec_game_terms()) + views_of(v.room_names@))
}

/// Whether two vocabularies hold the same names, in the same order.
pub open spec fn same_vocabulary(a: Vocabulary, b: Vocabulary) -> bool {
    string_views(a.player_names@) == string_views(b.player_names@) && views_of(a.room_names@) == views_of(b.room_names@)
}

/// `names` without the empty ones.
pub open spec fn nonempty_names(names: Seq<Seq<char>>) -> Seq<Seq<char>>
    decreases names.len(),
{
    if names.len() == 0 {
        Seq::empty()
    } else if names.last().len() == 0 {
        nonempty_names(names.drop_last())
    } else {
        nonempty_names(names.drop_last()).push(names.last())
    }
}

/// Whether `a` and `b` are the same string.
fn same_str(a: &str, b: &str) -> (r: bool)
    ensures
        r == (a@ == b@),
{
    let x = crate::text::chars_of(a);
    let y = crate::text::chars_of(b);
    if x.len() != y.len() {
        return false;
    }
    let mut k: usize = 0;
    while k < x.len()
        invariant
            x@ == a@,
            y@ == b@,
            x@.len() == y@.len(),
            k <= x@.len(),
            forall|i: int| 0 <= i < k ==> x@[i] == y@[i],
        decreases x@.len() - k,
    {
        if x[k] != y[k] {
            return false;
        }
        k = k + 1;
    }
    assert(a@ =~= b@);
    true
}

impl Vocabulary {
    /// The vocabulary of a game: the players' names, leaving out empty ones,
    /// and the room names of its map.
    pub fn from_players(player_names: &[String], room_names: &'static [&'static str]) -> (r: Self)
        ensures
            string_views(r.player_names@) == nonempty_names(string_views(player_names@)),
            r.room_names == room_names,
    {
        let mut names: Vec<String> = Vec::new();
        let mut k: usize = 0;
        while k < player_names.len()
            invariant
                k <= player_names@.len(),
                string_views(names@) == nonempty_names(string_views(player_names@).take(k as int)),
            decreases player_names@.len() - k,
        {
            let ghost before = string_views(names@);
            assert(string_views(player_names@).take(k + 1).drop_last() =~= string_views(player_names@).take(k as int));
            assert(string_views(player_names@).take(k + 1).last() == player_names@[k as int]@);
            let name = &player_names[k];
            if name.as_str().unicode_len() > 0 {
                names.push(name.clone());
                assert(string_views(names@) =~= before.push(player_names@[k as int]@));
            }
            k = k + 1;
        }
        assert(string_views(player_names@).take(player_names@.len() as int) =~= string_views(player_names@));
        Vocabulary { player_names: names, room_names }
    }

    /// Whether `self` and `other` hold the same names, in the same order.
    pub fn same_as(&self, other: &Vocabulary) -> (r: bool)
        ensures
            r == same_vocabulary(*self, *other),
    {
        if self.player_names.len() != other.player_names.len() || self.room_names.len() != other.room_names.len() {
            proof {
                if string_views(self.player_names@) == string_views(other.player_names@) {
                    assert(string_views(self.player_names@).len() == self.player_names@.len());
                }
                if views_of(self.room_names@) == views_of(other.room_names@) {
                    assert(views_of(self.room_names@).len() == self.room_names@.len());
                }
            }
            return false;
        }
        let mut k: usize = 0;
        while k < self.player_names.len()
            invariant
                self.player_names@.len() == other.player_names@.len(),
                k <= self.player_names@.len(),
                forall|i: int| 0 <= i < k ==> self.player_names@[i]@ == other.player_names@[i]@,
            decreases self.player_names@.len() - k,
        {
            if self.player_names[k] != other.player_names[k] {
                assert(string_views(self.player_names@)[k as int] != string_views(other.player_names@)[k as int]);
                return false;
            }
            k = k + 1;
        }
        assert(string_views(self.player_names@) =~= string_views(other.player_names@));
        let mut k: usize = 0;
        while k < self.room_names.len()
            invariant
                self.room_names@.len() == other.room_names@.len(),
                string_views(self.player_names@) == string_views(other.player_names@),
                k <= self.room_names@.len(),
                forall|i: int| 0 <= i < k ==> self.room_names@[i]@ == other.room_names@[i]@,
            decreases self.room_names@.len() - k,
        {
            if !same_str(self.room_names[k], other.room_names[k]) {
                assert(views_of(self.room_names@)[k as int] != views_of(other.room_names@)[k as int]);
                return false;
            }
            k = k + 1;
        }
        assert(views_of(self.room_names@) =~= views_of(other.room_names@));
        true
    }

    /// The terms vocabulary correction writes in their known spelling: the
    /// player names, the game terms and the room names, without English
    /// spellings (they are not heard in Japanese speech and are unwanted in the
    /// output). Correction has no token budget, so nothing is cut by priority.
    pub fn known_terms(&self) -> (r: Vec<&str>)
        ensures
            views_of(r@) == known_terms_of(*self),
    {
        let mut all: Vec<&str> = Vec::new();
        let mut k: usize = 0;
        while k < self.player_names.len()
            invariant
                k <= self.player_names@.len(),
                views_of(all@) == string_views(self.player_names@).take(k as int),
            decreases self.player_names@.len() - k,
        {
            let ghost before = views_of(all@);
            all.push(self.player_names[k].as_str());
            assert(views_of(all@) =~= before.push(self.player_names@[k as int]@));
            assert(string_views(self.player_names@).take(k + 1) =~= string_views(self.player_names@).take(k as int).push(self.player_names@[k as int]@));
            k = k + 1;
        }
        assert(string_views(self.player_names@).take(self.player_names@.len() as int) =~= string_views(self.player_names@));
        let terms = game_terms();
        push_all(&mut all, &terms);
        push_all(&mut all, self.room_names);
        let mut r: Vec<&str> = Vec::new();
        push_japanese(&mut r, &all);
        assert(views_of(r@) =~= without_english(views_of(all@)));
        r
    }
}

/// The items of the recognition context of `v`, least important first: the
/// room names (without English spellings), the game terms, the trigger words
/// and the player names.
///
/// The trigger words come right after the player names: a word missing from
/// the prompt is rarely produced by the model, and without them no turn
/// boundary is found; being few, they hardly touch the budget.
pub open spec fn context_items(v: Vocabulary) -> Seq<Seq<char>> {
    without_english(views_of(v.room_names@)) + views_of(spec_game_terms())
        + seq!["ターン開始"@, "ターン終了"@] + string_views(v.player_names@)
}

/// Builds the recognition context for `vocabulary` within `budget` tokens, as
/// counted by `count_tokens` (the tokenizer belongs to the model, so the caller
/// provides it).
///
/// When everything does not fit, room names go first; player names and terms
/// stay as long as possible: what is kept is always a tail of
/// [`context_items`].
pub fn build_recognition_context(vocabulary: &Vocabulary, budget: usize, count_tokens: impl Fn(&str) -> usize) -> (r: String)
    requires
        forall|s: &str| call_requires(count_tokens, (s,)),
    ensures
        exists|k: int| fitted(context_items(*vocabulary), budget, count_tokens, r@, k),
{
    let mut items: Vec<&str> = Vec::new();
    push_japanese(&mut items, vocabulary.room_names);
    let terms = game_terms();
    push_all(&mut items, &terms);
    let words = prompt_words();
    push_all(&mut items, &words);
    let ghost before_players = views_of(items@);
    let mut k: usize = 0;
    while k < vocabulary.player_names.len()
        invariant
            k <= vocabulary.player_names@.len(),
            views_of(items@) == before_players + string_views(vocabulary.player_names@).take(k as int),
        decreases vocabulary.player_names@.len() - k,
    {
        let ghost before = views_of(items@);
        items.push(vocabulary.player_names[k].as_str());
        assert(views_of(items@) =~= before.push(vocabulary.player_names@[k as int]@));
        assert(string_views(vocabulary.player_names@).take(k + 1) =~= string_views(vocabulary.player_names@).take(k as int).push(vocabulary.player_names@[k as int]@));
        k = k + 1;
    }
    assert(string_views(vocabulary.player_names@).take(vocabulary.player_names@.len() as int) =~= string_views(vocabulary.player_names@));
    assert(views_of(words@) =~= seq!["ターン開始"@, "ターン終了"@]);
    assert(views_of(items@) =~= context_items(*vocabulary));
    build_prompt(&items, budget, count_tokens)
}

/// Player names are the last items to go. A prompt that kept the first
/// player name keeps them all, at its end; one that lost any was built only
/// after the player names alone had been counted over the budget.
pub proof fn player_names_go_last(
    v: Vocabulary,
    budget: usize,
    count_tokens: impl Fn(&str) -> usize,
    r: Seq<char>,
    k: int,
)
    requires
        fitted(context_items(v), budget, count_tokens, r, k),
    ensures
        ({
            let items = context_items(v);
            let n = items.len() - v.player_names@.len();
            &&& k <= n ==> r == joined(items.subrange(k, n) + string_views(v.player_names@))
            &&& k > n ==> over_budget(count_tokens, joined(string_views(v.player_names@)), budget)
        }),
{
    let items = context_items(v);
    let n = items.len() - v.player_names@.len();
    let players = string_views(v.player_names@);
    assert(items.skip(n) =~= players);
    if k <= n {
        assert(items.skip(k) =~= items.subrange(k, n) + players);
    } else {
        assert(over_budget(count_tokens, joined(items.skip(n)), budget));
    }
}

proof fn lemma_without_english_contains(items: Seq<Seq<char>>, x: Seq<char>)
    ensures
        without_english(items).contains(x) <==> (items.contains(x) && !spec_is_english_alias(x)),
    decreases items.len(),
{
    if items.len() > 0 {
        let d = items.drop_last();
        lemma_without_english_contains(d, x);
        assert(items =~= d.push(items.last()));
        if d.contains(x) {
            let j = choose|j: int| 0 <= j < d.len() && d[j] == x;
            assert(items[j] == x);
        }
        if items.contains(x) {
            let j = choose|j: int| 0 <= j < items.len() && items[j] == x;
            if j < d.len() {
                assert(d[j] == x);
            }
        }
        if without_english(items).contains(x) && !without_english(d).contains(x) {
            let w = without_english(items);
            let j = choose|j: int| 0 <= j < w.len() && w[j] == x;
            if !spec_is_english_alias(items.last()) {
                assert(w == without_english(d).push(items.last()));
                if j < without_english(d).len() {
                    assert(without_english(d)[j] == x);
                }
            }
        }
        if !spec_is_english_alias(items.last()) {
            let w = without_english(items);
            assert(w == without_english(d).push(items.last()));
            assert(w[w.len() - 1] == items.last());
            if without_english(d).contains(x) {
                let j = choose|j: int| 0 <= j < without_english(d).len() && without_english(d)[j] == x;
                assert(w[j] == x);
            }
        }
    }
}

/// The known terms are exactly the player names, the game terms and the room
/// names that are not English spellings: every such name is among them,
/// whatever else the vocabulary holds, and nothing else is.
pub proof fn known_terms_are_the_japanese_names(v: Vocabulary, x: Seq<char>)
    ensures
        known_terms_of(v).contains(x) <==> (!spec_is_english_alias(x) && (
            string_views(v.player_names@).contains(x)
            || views_of(spec_game_terms()).contains(x)
            || views_of(v.room_names@).contains(x))),
        forall|i: int| 0 <= i < v.player_names@.len() && !spec_is_english_alias(#[trigger] v.player_names@[i]@) ==>
            known_terms_of(v).contains(v.player_names@[i]@),
{
    let a = string_views(v.player_names@);
    let b = views_of(spec_game_terms());
    let c = views_of(v.room_names@);
    let all = a + b + c;
    lemma_without_english_contains(all, x);
    if all.contains(x) {
        let j = choose|j: int| 0 <= j < all.len() && all[j] == x;
        if j < a.len() {
            assert(a[j] == x);
        } else if j < a.len() + b.len() {
            assert(b[j - a.len()] == x);
        } else {
            assert(c[j - a.len() - b.len()] == x);
        }
    }
    if a.contains(x) {
        let j = choose|j: int| 0 <= j < a.len() && a[j] == x;
        assert(all[j] == x);
    }
    if b.contains(x) {
        let j = choose|j: int| 0 <= j < b.len() && b[j] == x;
        assert(all[a.len() + j] == x);
    }
    if c.contains(x) {
        let j = choose|j: int| 0 <= j < c.len() && c[j] == x;
        assert(all[a.len() + b.len() + j] == x);
    }
    assert forall|i: int| 0 <= i < v.player_names@.len() && !spec_is_english_alias(#[trigger] v.player_names@[i]@) implies
        known_terms_of(v).contains(v.player_names@[i]@) by {
        let y = v.player_names@[i]@;
        lemma_without_english_contains(all, y);
        assert(all[i] == y);
    }
}

} // verus!
