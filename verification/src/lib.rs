//! Core logic of the Among Us map utility: reading normalisation of speech
//! transcripts, trigger-word detection, vocabulary correction and the turn
//! timeline of voice memos, plus the game-state operations behind the UI.

pub mod hotword;
pub mod interaction;
pub mod kana;
pub mod memo;
pub mod prompt;
pub mod reading;
pub mod state;
pub mod text;
pub mod transcript;
pub mod vocabulary;
