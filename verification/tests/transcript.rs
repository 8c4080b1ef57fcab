use amus::transcript::{
    get_model_download_url, get_model_size_description, memo_texts, remove_sound_effects,
    span_to_transcribe, DownloadProgress,
};

#[test]
fn removes_bracketed_sound_effects() {
    assert_eq!(remove_sound_effects("[音楽] こんにちは"), "こんにちは");
    assert_eq!(remove_sound_effects("はい(笑)そうです"), "はいそうです");
    assert_eq!(remove_sound_effects("（拍手）エレキ"), "エレキ");
    assert_eq!(remove_sound_effects(" [a] x [b] y "), "x  y");
}

#[test]
fn keeps_an_unclosed_bracket() {
    assert_eq!(remove_sound_effects("[音楽 こんにちは"), "[音楽 こんにちは");
    assert_eq!(remove_sound_effects("a] (b"), "a] (b");
}

#[test]
fn removes_from_the_first_open_to_the_next_close() {
    assert_eq!(remove_sound_effects("[a[b]c]d"), "c]d");
}

#[test]
fn brackets_are_removed_kind_by_kind() {
    // The round brackets go after the square ones, so a span the square
    // brackets cut into is removed as what is left of it.
    assert_eq!(remove_sound_effects("x(y[z)w]v"), "x(yv");
}

#[test]
fn splits_a_transcript_into_sentences() {
    assert_eq!(
        memo_texts("エレキに行った。 エンジン湧き。メイン"),
        vec!["エレキに行った。", "エンジン湧き。", "メイン"]
    );
}

#[test]
fn drops_empty_sentences_and_sound_effects() {
    assert_eq!(memo_texts("[音楽]。 。はい。"), vec!["はい。"]);
    assert_eq!(memo_texts("  "), Vec::<String>::new());
}

#[test]
fn drops_replacement_characters() {
    assert_eq!(memo_texts("エ\u{FFFD}レキ"), vec!["エレキ"]);
}

#[test]
fn only_long_enough_spans_inside_the_recording_are_transcribed() {
    assert!(span_to_transcribe(0, 8000, 8000));
    assert!(!span_to_transcribe(0, 7999, 8000));
    assert!(!span_to_transcribe(100, 100, 8000));
    assert!(!span_to_transcribe(0, 9000, 8000));
}

#[test]
fn names_the_model_download() {
    assert_eq!(
        get_model_download_url(),
        "https://huggingface.co/ggerganov/whisper.cpp/resolve/main/ggml-small.bin"
    );
    assert_eq!(get_model_size_description(), "約466MB");
    let progress = DownloadProgress { downloaded_bytes: 5, total_bytes: Some(10) };
    assert_eq!(progress.clone().downloaded_bytes, 5);
}
