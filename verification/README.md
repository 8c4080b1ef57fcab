# amus

The core of a desktop utility that records Among Us games on a map. This crate
is written in Verus: every function in `src/` carries a contract that Verus
proves, except four small wrappers around std (`char::from_u32` in
`src/kana.rs`; collecting a string's characters, collecting characters into a
string and `String::push` in `src/text.rs`), whose contracts are trusted.

- `src/reading.rs`, `src/kana.rs`: bringing transcripts to a common reading
  (katakana, no separators, long vowels folded) and the approximate matching
  of a word against a text (edit distance to the closest substring).
- `src/hotword.rs`: the trigger words that open and close turns, and the
  cooldown that keeps one utterance from counting twice.
- `src/vocabulary.rs`: writing known terms (player names, rooms, game terms)
  in their known spelling where their reading occurs.
- `src/prompt.rs`: the recognition prompt, cut to its token budget from the
  least important end.
- `src/transcript.rs`: cleaning raw recognition output into memo texts.
- `src/memo.rs`: the turn timeline: turns as intervals of the recording and
  memos placed in the turn where they were spoken.
- `src/state.rs`, `src/interaction.rs`: the game state and what the windows'
  clicks do to it.

`app/` holds the unverified side: the egui windows, speech recognition with
whisper.cpp, the model download and the files on disk.
