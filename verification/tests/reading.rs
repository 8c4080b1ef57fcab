use amus::hotword::{contains_close, min_distance_to_substring, normalize, Hotword, HotwordMatcher};
use amus::kana::{is_separator, is_white_space, to_katakana, vowel_of};
use amus::memo::{interpolate, skip_chars, take_chars};
use amus::prompt::{game_terms, is_english_alias};
use amus::reading::{closest_substring, match_range, read, trim_separators};

fn chars(s: &str) -> Vec<char> {
    s.chars().collect()
}

#[test]
fn hiragana_becomes_katakana() {
    assert_eq!(to_katakana('あ'), 'ア');
    assert_eq!(to_katakana('ゔ'), 'ヴ');
    assert_eq!(to_katakana('ア'), 'ア');
    assert_eq!(to_katakana('漢'), '漢');
    assert_eq!(to_katakana('a'), 'a');
}

#[test]
fn katakana_has_a_vowel() {
    assert_eq!(vowel_of('カ'), Some('ア'));
    assert_eq!(vowel_of('シ'), Some('イ'));
    assert_eq!(vowel_of('ョ'), Some('オ'));
    assert_eq!(vowel_of('ン'), None);
    assert_eq!(vowel_of('開'), None);
}

#[test]
fn separators_and_white_space() {
    assert!(is_separator('、'));
    assert!(is_separator('?'));
    assert!(!is_separator('ア'));
    assert!(is_white_space('\u{3000}'));
    assert!(is_white_space('\n'));
    assert!(!is_white_space('、'));
}

#[test]
fn reading_folds_spelling_and_keeps_the_way_back() {
    let r = read("たあん、 カイシ");
    assert_eq!(r.chars, chars("タアンカイシ"));
    assert_eq!(r.source_start, vec![0, 1, 2, 5, 6, 7]);
    assert_eq!(r.source_end, vec![1, 2, 3, 6, 7, 8]);
    assert_eq!(r.source_start(3), 5);
    assert_eq!(r.source_end(3), 3);
    assert_eq!(r.source_end(0), 0);
}

#[test]
fn a_long_vowel_mark_takes_the_vowel_before_it() {
    assert_eq!(normalize("ターン"), chars("タアン"));
    assert_eq!(normalize("ーあ"), chars("ア"));
}

#[test]
fn the_closest_substring_is_the_earliest_of_the_closest() {
    assert_eq!(closest_substring(&chars("abcxyz"), &chars("bcx")), (0, 4));
    assert_eq!(closest_substring(&chars("abcxyz"), &chars("bdx")), (1, 4));
    assert_eq!(closest_substring(&chars("abab"), &chars("ab")), (0, 2));
    assert_eq!(closest_substring(&chars(""), &chars("ab")), (2, 0));
    assert_eq!(min_distance_to_substring(&chars("xyz"), &chars("abc")), 3);
}

#[test]
fn one_edit_is_allowed_for_every_four_characters() {
    assert!(contains_close(&chars("xxタアンカイシxx"), &chars("タアンカイシ")));
    assert!(contains_close(&chars("ハアンカイシ"), &chars("タアンカイシ")));
    assert!(!contains_close(&chars("ハアンカイチ"), &chars("タアンカイシ")));
    assert!(!contains_close(&chars("abc"), &chars("abd")));
    assert!(!contains_close(&chars("abc"), &chars("")));
}

#[test]
fn the_match_range_covers_the_word() {
    assert_eq!(match_range(&chars("ジャアタアンカイシシマス"), &chars("タアンカイシ")), Some((3, 9)));
    assert_eq!(match_range(&chars("エレキ"), &chars("タアンカイシ")), None);
}

#[test]
fn locating_agrees_with_finding() {
    let m = HotwordMatcher::new(&["ターン開始", "ターンかいし"], &["ターン終了", "ターンしゅうりょう"]);
    let text = "じゃあ、ターンかいしします";
    let found = m.locate(text).unwrap();
    assert_eq!(found.hotword, Hotword::TurnStart);
    assert_eq!(m.find(text), Some(Hotword::TurnStart));
    let t: Vec<char> = text.chars().collect();
    let word: String = t[found.word_start..found.word_end].iter().collect();
    assert_eq!(word, "ターンかいし");
    assert_eq!(m.locate("エレキで会った"), None);
    assert_eq!(m.find("エレキで会った"), None);
}

#[test]
fn trimming_drops_separators_and_white_space_at_the_ends() {
    assert_eq!(trim_separators(" 、エレキ。 "), "エレキ");
    assert_eq!(trim_separators("、。"), "");
    assert_eq!(trim_separators("エ、レキ"), "エ、レキ");
}

#[test]
fn characters_are_taken_and_skipped() {
    assert_eq!(take_chars("ターン開始", 3), "ターン");
    assert_eq!(take_chars("ターン", 10), "ターン");
    assert_eq!(skip_chars("ターン開始", 3), "開始");
    assert_eq!(skip_chars("ターン", 10), "");
}

#[test]
fn positions_are_shared_out_by_characters() {
    assert_eq!(interpolate(1000, 2000, 3, 10), 1300);
    assert_eq!(interpolate(1000, 2000, 15, 10), 2000);
    assert_eq!(interpolate(1000, 2000, 0, 0), 2000);
}

#[test]
fn english_room_names_are_recognised() {
    assert!(is_english_alias("Cafeteria"));
    assert!(is_english_alias("Upper Engine"));
    assert!(!is_english_alias("O2"));
    assert!(!is_english_alias("カフェテリア"));
    assert_eq!(game_terms().len(), 10);
    assert_eq!(game_terms()[0], "サボ");
}

#[test]
fn finding_goes_by_reading_alone() {
    let m = HotwordMatcher::new(&["ターン開始", "ターンかいし"], &["ターン終了", "ターンしゅうりょう"]);
    assert_eq!(m.find("じゃあ、 ターン かいし！"), Some(Hotword::TurnStart));
    assert_eq!(m.find("ジャアターンカイシ"), Some(Hotword::TurnStart));
    assert_eq!(m.find("はい、ターンしゅうりょう"), Some(Hotword::TurnEnd));
    assert_eq!(m.find("ハイターンシュウリョウ"), Some(Hotword::TurnEnd));
    let start_only = HotwordMatcher::new(&["ターンかいし"], &[]);
    assert_eq!(start_only.find("はい、ターンしゅうりょう"), None);
}
