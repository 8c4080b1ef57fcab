use amus::memo::{clock, turn_length, RecordingStep, Round, VoiceMemoAction, VoiceMemoFeature};

#[test]
fn recreating_the_game_clears_previous_memos() {
    let mut feature = VoiceMemoFeature::default();
    feature.state.rounds.push(Round::default());
    feature.state.round_active = true;

    // The game was recreated.
    feature.game_generation += 1;
    feature.follow_game_lifecycle();

    assert!(feature.state.rounds.is_empty(), "前のゲームのメモが残っている");
    assert!(!feature.state.round_active);
}

#[test]
fn starting_a_turn_without_recording_does_nothing() {
    let mut feature = VoiceMemoFeature::default();

    // No recorder: no recording position.
    feature.handle_action(VoiceMemoAction::StartRound, None);

    assert!(feature.state.rounds.is_empty(), "ターンが作られてしまった");
    assert!(!feature.state.round_active);
}

#[test]
fn restarting_transcription_drops_the_chunks_the_old_thread_held() {
    let mut feature = VoiceMemoFeature::default();
    feature.state.pending_chunks = 3;
    feature.state.is_processing = true;

    feature.transcription_restarted();

    assert_eq!(feature.state.pending_chunks, 0);
    assert!(!feature.state.is_processing);
}

#[test]
fn starting_a_turn_while_recording_opens_it_at_the_recording_position() {
    let mut feature = VoiceMemoFeature::default();
    feature.recording_started(0);

    feature.handle_action(VoiceMemoAction::StartRound, Some(4800));

    assert_eq!(feature.state.rounds.len(), 1);
    assert_eq!(feature.state.rounds[0].start_sample, 4800);
    assert_eq!(feature.state.rounds[0].end_sample, None);
    assert!(feature.state.round_active);
    assert_eq!(feature.state.selected_round, 0);
}

#[test]
fn ending_a_turn_closes_it_at_the_recording_position() {
    let mut feature = VoiceMemoFeature::default();
    feature.recording_started(0);
    feature.handle_action(VoiceMemoAction::StartRound, Some(100));
    feature.handle_action(VoiceMemoAction::EndRound, Some(900));

    assert_eq!(feature.state.rounds[0].end_sample, Some(900));
    assert!(!feature.state.round_active);
    assert!(feature.state.is_recording);
}

#[test]
fn stopping_the_recording_closes_the_turn_in_progress() {
    let mut feature = VoiceMemoFeature::default();
    feature.recording_started(0);
    feature.handle_action(VoiceMemoAction::StartRound, Some(100));
    feature.recording_stopped(Some(700));

    assert_eq!(feature.state.rounds[0].end_sample, Some(700));
    assert!(!feature.state.round_active);
    assert!(!feature.state.is_recording);
}

#[test]
fn selecting_a_missing_turn_keeps_the_selection() {
    let mut feature = VoiceMemoFeature::default();
    feature.recording_started(0);
    feature.handle_action(VoiceMemoAction::StartRound, Some(100));
    feature.handle_action(VoiceMemoAction::StartRound, Some(200));
    feature.handle_action(VoiceMemoAction::SelectRound(0), None);
    assert_eq!(feature.state.selected_round, 0);
    feature.handle_action(VoiceMemoAction::SelectRound(5), None);
    assert_eq!(feature.state.selected_round, 0);
}

#[test]
fn clearing_drops_every_turn() {
    let mut feature = VoiceMemoFeature::default();
    feature.recording_started(0);
    feature.handle_action(VoiceMemoAction::StartRound, Some(100));
    feature.handle_action(VoiceMemoAction::ClearAllRounds, Some(200));
    assert!(feature.state.rounds.is_empty());
    assert_eq!(feature.state.selected_round, 0);
    assert!(!feature.state.round_active);
}

#[test]
fn a_download_is_started_once() {
    let mut feature = VoiceMemoFeature::default();
    assert!(feature.handle_action(VoiceMemoAction::DownloadModel, None));
    assert!(feature.state.is_downloading);
    assert!(!feature.handle_action(VoiceMemoAction::DownloadModel, None));
}

#[test]
fn a_finished_download_makes_the_model_available() {
    let mut feature = VoiceMemoFeature::default();
    feature.start_download();
    feature.download_progressed(10, Some(100));
    assert_eq!(feature.state.downloaded_bytes, 10);
    assert_eq!(feature.state.total_bytes, Some(100));
    feature.download_finished(Ok(()));
    assert!(!feature.state.is_downloading);
    assert!(feature.state.model_available);
    assert_eq!(feature.state.error, None);
}

#[test]
fn a_failed_download_shows_its_error() {
    let mut feature = VoiceMemoFeature::default();
    feature.start_download();
    feature.download_finished(Err("ダウンロード開始に失敗".to_string()));
    assert!(!feature.state.is_downloading);
    assert!(!feature.state.model_available);
    assert_eq!(feature.state.error.as_deref(), Some("ダウンロード開始に失敗"));
}

#[test]
fn recording_follows_the_game() {
    let mut feature = VoiceMemoFeature::default();
    feature.game_active = true;
    assert_eq!(feature.follow_game_lifecycle(), RecordingStep::Start);
    feature.recording_started(0);
    assert_eq!(feature.follow_game_lifecycle(), RecordingStep::Keep);
    feature.game_active = false;
    assert_eq!(feature.follow_game_lifecycle(), RecordingStep::Stop);
    feature.recording_stopped(Some(10));
    assert_eq!(feature.follow_game_lifecycle(), RecordingStep::Keep);
}

#[test]
fn a_recreated_game_in_progress_restarts_the_recording() {
    let mut feature = VoiceMemoFeature::default();
    feature.game_active = true;
    feature.recording_started(0);
    feature.game_generation += 1;
    assert_eq!(feature.follow_game_lifecycle(), RecordingStep::Restart);
    assert_eq!(feature.observed_game_generation, feature.game_generation);
}

#[test]
fn pending_chunks_are_counted_down_as_results_arrive() {
    let mut feature = VoiceMemoFeature::default();
    feature.transcription_requested();
    feature.transcription_requested();
    assert_eq!(feature.state.pending_chunks, 2);
    assert!(feature.state.is_processing);
    feature.transcription_received(Err("書き起こしに失敗".to_string()));
    assert_eq!(feature.state.pending_chunks, 1);
    assert_eq!(feature.state.error.as_deref(), Some("書き起こしに失敗"));
    feature.transcription_polled();
    assert!(feature.state.is_processing);
    feature.transcription_received(Ok(Vec::new()));
    assert_eq!(feature.state.pending_chunks, 0);
    feature.transcription_polled();
    assert!(!feature.state.is_processing);
}

#[test]
fn times_are_shown_in_whole_seconds() {
    assert_eq!(clock(0), (0, 0));
    assert_eq!(clock(15_999), (0, 0));
    assert_eq!(clock(16_000 * 75 + 8_000), (1, 15));
    assert_eq!(clock(16_000 * 3600), (60, 0));
}

#[test]
fn a_closed_turn_has_a_length() {
    let open = Round { memos: Vec::new(), start_sample: 100, end_sample: None };
    assert_eq!(turn_length(&open), None);
    let closed = Round { memos: Vec::new(), start_sample: 100, end_sample: Some(16_100) };
    assert_eq!(turn_length(&closed), Some(16_000));
    let reversed = Round { memos: Vec::new(), start_sample: 200, end_sample: Some(100) };
    assert_eq!(turn_length(&reversed), Some(0));
}

#[test]
fn an_error_is_shown_until_recording_starts() {
    let mut feature = VoiceMemoFeature::default();
    feature.show_error("録音開始エラー".to_string());
    assert_eq!(feature.state.error.as_deref(), Some("録音開始エラー"));
    assert!(!feature.state.is_recording);
    feature.recording_started(32);
    assert_eq!(feature.state.error, None);
    assert_eq!(feature.recording_start_sample, 32);
}

#[test]
fn a_recreated_game_not_in_progress_stops_the_recording() {
    let mut feature = VoiceMemoFeature::default();
    feature.game_generation += 1;
    assert_eq!(feature.follow_game_lifecycle(), RecordingStep::Stop);
    assert_eq!(feature.follow_game_lifecycle(), RecordingStep::Keep);
}

#[test]
fn the_window_offers_what_the_state_allows() {
    let mut feature = VoiceMemoFeature::default();
    let s = &feature.state;
    assert!(amus::memo::action_offered(s, VoiceMemoAction::DownloadModel));
    assert!(!amus::memo::action_offered(s, VoiceMemoAction::StartRound));
    feature.state.recorder_available = true;
    feature.recording_started(0);
    feature.handle_action(VoiceMemoAction::StartRound, Some(10));
    let s = &feature.state;
    assert!(amus::memo::action_offered(s, VoiceMemoAction::EndRound));
    assert!(!amus::memo::action_offered(s, VoiceMemoAction::StartRound));
    assert!(!amus::memo::action_offered(s, VoiceMemoAction::ClearAllRounds));
    assert!(!amus::memo::action_offered(s, VoiceMemoAction::SelectRound(0)));
    feature.handle_action(VoiceMemoAction::StartRound, Some(20));
    feature.handle_action(VoiceMemoAction::EndRound, Some(30));
    let s = &feature.state;
    assert!(amus::memo::action_offered(s, VoiceMemoAction::ClearAllRounds));
    assert!(amus::memo::action_offered(s, VoiceMemoAction::SelectRound(0)));
    assert!(!amus::memo::action_offered(s, VoiceMemoAction::SelectRound(1)));
    assert!(!amus::memo::action_offered(s, VoiceMemoAction::SelectRound(2)));
    feature.start_download();
    assert!(!amus::memo::action_offered(&feature.state, VoiceMemoAction::DownloadModel));
}
