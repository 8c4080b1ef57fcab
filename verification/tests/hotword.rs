use amus::hotword::{BoundaryTracker, Hotword, HotwordMatcher, TurnBoundary};

fn matcher() -> HotwordMatcher {
    HotwordMatcher::new(&["ターン開始"], &["ターン終了"])
}

#[test]
fn hotword_absorbs_a_long_vowel_written_as_a_kana() {
    let matcher = HotwordMatcher::new(&["ターンかいし"], &["ターンしゅうりょう"]);

    // 「ター」と「たあ」は同じ読み
    assert_eq!(matcher.find("たあんかいし"), Some(Hotword::TurnStart));
}

#[test]
fn tolerates_a_single_misheard_character() {
    let matcher = HotwordMatcher::new(&["ターンかいし"], &["ターンしゅうりょう"]);

    // 実際の認識結果。「ターン」が「はあん」に化けている
    assert_eq!(matcher.find("はあん、かいし"), Some(Hotword::TurnStart));
}

#[test]
fn does_not_match_unrelated_speech_of_a_similar_length() {
    let matcher = HotwordMatcher::new(&["ターンかいし"], &["ターンしゅうりょう"]);

    assert_eq!(matcher.find("さっきのタスクやった"), None);
    assert_eq!(matcher.find("カフェテリアにいた"), None);
}

#[test]
fn finds_the_start_word_in_surrounding_text() {
    assert_eq!(
        matcher().find("じゃあターン開始します"),
        Some(Hotword::TurnStart)
    );
}

#[test]
fn absorbs_kana_and_separator_differences() {
    let matcher = HotwordMatcher::new(&["ターンかいし"], &["ターンしゅうりょう"]);

    // ひらがな・カタカナの違いを無視する
    assert_eq!(matcher.find("ターンカイシ"), Some(Hotword::TurnStart));
    // 区切り記号や空白が混ざっても拾う
    assert_eq!(
        matcher.find("ターン、しゅう りょう"),
        Some(Hotword::TurnEnd)
    );
}

#[test]
fn returns_none_without_a_trigger_word() {
    assert_eq!(matcher().find("エレキで死体見つけた"), None);
}

/// クールダウンは検証したい振る舞いではないので、十分短くしておく。
fn tracker() -> BoundaryTracker {
    BoundaryTracker::new(0)
}

#[test]
fn start_word_opens_a_turn() {
    assert_eq!(
        tracker().accept(Hotword::TurnStart, 100, false),
        Some(TurnBoundary::Open)
    );
}

#[test]
fn start_word_during_a_turn_restarts_it() {
    assert_eq!(
        tracker().accept(Hotword::TurnStart, 100, true),
        Some(TurnBoundary::Restart)
    );
}

#[test]
fn end_word_closes_an_open_turn() {
    assert_eq!(
        tracker().accept(Hotword::TurnEnd, 100, true),
        Some(TurnBoundary::Close)
    );
}

#[test]
fn end_word_without_an_open_turn_is_ignored() {
    assert_eq!(tracker().accept(Hotword::TurnEnd, 100, false), None);
}

#[test]
fn detections_during_cooldown_are_ignored() {
    let mut tracker = BoundaryTracker::new(50);

    assert_eq!(
        tracker.accept(Hotword::TurnStart, 100, false),
        Some(TurnBoundary::Open)
    );
    // 同じ発話を重ねて拾わない
    assert_eq!(tracker.accept(Hotword::TurnStart, 140, true), None);
    // クールダウンを過ぎれば拾う
    assert_eq!(
        tracker.accept(Hotword::TurnStart, 150, true),
        Some(TurnBoundary::Restart)
    );
}

#[test]
fn ignored_detections_do_not_extend_the_cooldown() {
    let mut tracker = BoundaryTracker::new(50);
    tracker.accept(Hotword::TurnStart, 100, false);

    // 無視された検出でクールダウンの起点がずれると、次が拾えなくなる
    tracker.accept(Hotword::TurnStart, 140, true);

    assert_eq!(
        tracker.accept(Hotword::TurnStart, 150, true),
        Some(TurnBoundary::Restart)
    );
}

#[test]
fn detection_windows_are_sent_one_at_a_time_a_stride_apart() {
    let mut w = amus::hotword::HotwordWindows::new();
    assert_eq!(w.next_window(31_999), None);
    assert_eq!(w.next_window(32_000), Some(0));
    assert!(w.pending);
    // Unanswered: nothing more is sent.
    assert_eq!(w.next_window(60_000), None);
    w.answered();
    assert_eq!(w.next_window(47_999), None);
    assert_eq!(w.next_window(48_000), Some(16_000));
    assert_eq!(w.last_end, 48_000);
}

#[test]
fn a_trigger_word_heard_in_a_window_moves_the_boundary_to_its_end() {
    let mut feature = amus::memo::VoiceMemoFeature::default();
    assert!(!feature.take_hotword_result("エレキで会った", 40_000));
    assert!(feature.state.rounds.is_empty());
    assert!(feature.take_hotword_result("じゃあターン開始", 40_000));
    assert_eq!(feature.state.rounds.len(), 1);
    assert_eq!(feature.state.rounds[0].start_sample, 40_000);
    // Within the cooldown: ignored.
    assert!(!feature.take_hotword_result("ターン終了", 60_000));
    assert!(feature.take_hotword_result("ターン終了", 100_000));
    assert_eq!(feature.state.rounds[0].end_sample, Some(100_000));
}
