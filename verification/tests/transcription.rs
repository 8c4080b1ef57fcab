use amus::hotword::{BoundaryTracker, SAMPLE_RATE};
use amus::memo::{RecordedSegment, Round, VoiceMemoFeature};
use amus::vocabulary::VocabularyCorrector;

/// `[start, end)` のターンを並べた feature を作る。`None` は進行中のターン。
fn feature_with_turns(turns: &[(usize, Option<usize>)]) -> VoiceMemoFeature {
    let mut feature = VoiceMemoFeature::default();
    feature.state.rounds = turns
        .iter()
        .map(|&(start_sample, end_sample)| Round {
            start_sample,
            end_sample,
            ..Default::default()
        })
        .collect();
    feature
}

fn memo_texts(feature: &VoiceMemoFeature, round: usize) -> Vec<&str> {
    feature.state.rounds[round]
        .memos
        .iter()
        .map(|memo| memo.text.as_str())
        .collect()
}

/// クールダウンは検証したい振る舞いではないので無効にしておく。
fn feature() -> VoiceMemoFeature {
    VoiceMemoFeature {
        boundary_tracker: BoundaryTracker::new(0),
        ..Default::default()
    }
}

/// 録音を取り直した直後の feature。前の録音は 1000 まで進んでいた。
fn restarted_feature() -> VoiceMemoFeature {
    VoiceMemoFeature {
        boundary_tracker: BoundaryTracker::new(0),
        recording_start_sample: 1000,
        ..Default::default()
    }
}

fn segment(start_sample: usize, end_sample: usize, text: &str) -> RecordedSegment {
    RecordedSegment {
        start_sample,
        end_sample,
        text: text.to_string(),
    }
}

fn seconds(samples: usize) -> f32 {
    samples as f32 / SAMPLE_RATE as f32
}

#[test]
fn a_memo_goes_to_the_turn_containing_its_position() {
    let mut feature = feature_with_turns(&[(0, Some(100)), (200, Some(300))]);

    feature.push_memo_at(50, "1つ目のターン".to_string());
    feature.push_memo_at(250, "2つ目のターン".to_string());

    assert_eq!(memo_texts(&feature, 0), ["1つ目のターン"]);
    assert_eq!(memo_texts(&feature, 1), ["2つ目のターン"]);
}

#[test]
fn a_memo_outside_every_turn_is_dropped() {
    let mut feature = feature_with_turns(&[(0, Some(100)), (200, Some(300))]);

    // ターンの切れ目の発話はどのターンにも属さない
    feature.push_memo_at(150, "ターン外".to_string());

    assert!(memo_texts(&feature, 0).is_empty());
    assert!(memo_texts(&feature, 1).is_empty());
}

#[test]
fn an_open_turn_takes_memos_after_its_start() {
    let mut feature = feature_with_turns(&[(100, None)]);

    feature.push_memo_at(50, "開始前".to_string());
    feature.push_memo_at(100_000, "開始後".to_string());

    assert_eq!(memo_texts(&feature, 0), ["開始後"]);
}

#[test]
fn the_timestamp_is_measured_from_the_start_of_its_turn() {
    let mut feature = feature_with_turns(&[(SAMPLE_RATE, None)]);

    feature.push_memo_at(SAMPLE_RATE * 4, "3秒地点".to_string());

    assert_eq!(seconds(feature.state.rounds[0].memos[0].offset_samples), 3.0);
}

#[test]
fn memos_are_written_in_the_known_form() {
    let mut feature = feature();
    feature.corrector = VocabularyCorrector::new(&["エレキ", "エンジン"]);

    feature.apply_segments(vec![
        segment(0, 1000, "ターン開始"),
        segment(1000, 2000, "えれきからえんじんに移動"),
    ]);

    assert_eq!(memo_texts(&feature, 0), ["エレキからエンジンに移動"]);
}

#[test]
fn a_start_word_opens_a_turn() {
    let mut feature = feature();

    feature.apply_segments(vec![segment(1000, 2000, "じゃあターン開始します")]);

    assert!(feature.state.round_active);
    assert_eq!(feature.state.rounds.len(), 1);
}

#[test]
fn a_trigger_word_split_across_segments_is_still_found() {
    let mut feature = feature();

    // 句読点で区切られるため語が割れることがある
    feature.apply_segments(vec![
        segment(0, 1000, "はあん"),
        segment(1000, 2000, "かいし"),
    ]);

    assert!(feature.state.round_active, "分割されたワードを取り逃した");
}

#[test]
fn a_trigger_word_does_not_become_a_memo() {
    let mut feature = feature();

    feature.apply_segments(vec![segment(1000, 2000, "ターン開始")]);

    assert!(feature.state.rounds[0].memos.is_empty());
}

#[test]
fn the_turn_starts_right_after_the_trigger_word() {
    let mut feature = feature();

    // 10文字中5文字目「始」の直後
    feature.apply_segments(vec![segment(0, 1000, "ターン開始エンジン湧き")]);

    assert_eq!(feature.state.rounds[0].start_sample, 454);
}

#[test]
fn segments_after_the_trigger_word_go_to_the_opened_turn() {
    let mut feature = feature();

    feature.apply_segments(vec![
        segment(0, 1000, "ターン開始"),
        segment(1000, 2000, "エンジン湧き"),
        segment(2000, 3000, "メイン"),
    ]);

    assert_eq!(memo_texts(&feature, 0), ["エンジン湧き", "メイン"]);
}

#[test]
fn segments_before_the_trigger_word_stay_in_the_turn_being_closed() {
    let mut feature = feature();
    feature.state.rounds.push(Round {
        start_sample: 0,
        ..Default::default()
    });
    feature.state.round_active = true;

    feature.apply_segments(vec![
        segment(1000, 2000, "エレキ白"),
        segment(2000, 3000, "ターン開始"),
        segment(3000, 4000, "貨物でかえで"),
    ]);

    assert_eq!(memo_texts(&feature, 0), ["エレキ白"]);
    assert_eq!(memo_texts(&feature, 1), ["貨物でかえで"]);
}

#[test]
fn each_segment_keeps_the_time_it_was_spoken() {
    let mut feature = feature();
    let second = SAMPLE_RATE;

    feature.apply_segments(vec![
        segment(0, second, "ターン開始"),
        segment(second, second * 3, "エンジン湧き"),
        segment(second * 3, second * 4, "メイン"),
    ]);

    let memos = &feature.state.rounds[0].memos;
    assert_eq!(seconds(memos[0].offset_samples), 0.0);
    assert_eq!(seconds(memos[1].offset_samples), 2.0);
}

#[test]
fn an_end_word_closes_the_open_turn() {
    let mut feature = feature();
    feature.apply_segments(vec![segment(1000, 2000, "ターン開始")]);

    feature.apply_segments(vec![segment(5000, 6000, "ターン終了")]);

    assert!(!feature.state.round_active);
    assert_eq!(feature.state.rounds[0].end_sample, Some(6000));
}

#[test]
fn a_turn_start_utterance_is_kept() {
    let mut feature = feature();

    let kept = feature.apply_segments(vec![segment(0, 1000, "ターン開始")]);

    assert!(kept, "ターン開始の発話は保存対象になるべき");
}

#[test]
fn speech_inside_an_open_turn_is_kept() {
    let mut feature = feature();
    feature.state.rounds.push(Round {
        start_sample: 0,
        ..Default::default()
    });
    feature.state.round_active = true;

    let kept = feature.apply_segments(vec![segment(1000, 2000, "エレキ湧き")]);

    assert!(kept, "ターン中の発話は保存対象になるべき");
}

#[test]
fn speech_outside_any_turn_is_not_kept() {
    let mut feature = feature();

    // ターンが一つも無い状態での雑談。トリガーワードも含まない。
    let kept = feature.apply_segments(vec![segment(0, 1000, "さっきのタスクやった")]);

    assert!(!kept, "ターン外の発話は保存対象にならないべき");
}

#[test]
fn a_stale_chunk_from_a_previous_recording_is_not_kept() {
    let mut feature = restarted_feature();

    let kept = feature.apply_segments(vec![segment(100, 200, "ターン開始")]);

    assert!(!kept, "前の録音のチャンクは保存対象にならないべき");
}

#[test]
fn a_trigger_word_from_a_previous_recording_does_not_open_a_turn() {
    let mut feature = restarted_feature();

    // 録音停止後に返ってきた前の録音のセグメント
    feature.apply_segments(vec![segment(100, 200, "ターン開始")]);

    assert!(!feature.state.round_active);
    assert!(feature.state.rounds.is_empty());
}

#[test]
fn a_trigger_word_in_the_current_recording_still_opens_a_turn() {
    let mut feature = restarted_feature();

    feature.apply_segments(vec![segment(1000, 1200, "ターン開始")]);

    assert!(feature.state.round_active);
}

#[test]
fn memos_never_move_a_turn_boundary() {
    let mut feature = feature_with_turns(&[(100, Some(200)), (300, None)]);
    assert!(feature.push_memo_at(150, "一つ目".to_string()));
    assert!(feature.push_memo_at(400, "二つ目".to_string()));
    assert!(!feature.push_memo_at(250, "外".to_string()));
    assert_eq!(feature.state.rounds.len(), 2);
    assert_eq!(feature.state.rounds[0].start_sample, 100);
    assert_eq!(feature.state.rounds[0].end_sample, Some(200));
    assert_eq!(feature.state.rounds[1].start_sample, 300);
    assert_eq!(feature.state.rounds[1].end_sample, None);
}

#[test]
fn only_the_segment_holding_the_trigger_word_needs_a_sound_span() {
    let mut taken = feature();
    // The word ends where "メイン" starts; the reversed span after it is
    // never computed with.
    let segments = vec![
        segment(0, 1000, "ターン開始"),
        segment(1000, 2000, "メイン"),
        segment(3000, 2000, "エンジン湧き"),
    ];
    assert!(taken.segments_fit(&segments));
    assert!(taken.apply_segments(segments));
    assert_eq!(taken.state.rounds[0].start_sample, 1000);
    assert_eq!(memo_texts(&taken, 0), vec!["メイン", "エンジン湧き"]);

    let checked = feature();
    // Here the word ends where the reversed span starts.
    let word_then_reversed = vec![segment(0, 1000, "ターン開始"), segment(3000, 2000, "エンジン湧き")];
    assert!(!checked.segments_fit(&word_then_reversed));
    // A word that ends the text falls in no segment: no span is computed with.
    let word_last = vec![segment(1000, 0, "ターン開始")];
    assert!(checked.segments_fit(&word_last));
    let no_word = vec![segment(5000, 4000, "メイン")];
    assert!(checked.segments_fit(&no_word));
}
