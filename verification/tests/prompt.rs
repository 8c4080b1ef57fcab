use amus::prompt::{build_recognition_context, game_terms, Vocabulary};

fn count_chars(text: &str) -> usize {
    text.chars().count()
}

fn vocabulary(players: &[&str], rooms: &'static [&'static str]) -> Vocabulary {
    Vocabulary {
        player_names: players.iter().map(|s| s.to_string()).collect(),
        room_names: rooms,
    }
}

/// 予算を気にしないテストで使う、十分に大きい値。
const AMPLE_BUDGET: usize = 1000;

#[test]
fn carries_the_trigger_words() {
    let vocab = vocabulary(&["ゆう"], &["カフェテリア"]);

    let prompt = build_recognition_context(&vocab, AMPLE_BUDGET, count_chars);

    // トリガーワードが出力に現れないと検知が成立しない
    assert!(prompt.contains("ターン開始"), "prompt={}", prompt);
    assert!(prompt.contains("ターン終了"), "prompt={}", prompt);
}

#[test]
fn places_player_names_last() {
    let vocab = vocabulary(&["ゆう"], &["カフェテリア"]);

    let prompt = build_recognition_context(&vocab, AMPLE_BUDGET, count_chars);

    assert!(
        prompt.ends_with("ゆう"),
        "プレイヤー名が末尾にない: {prompt}"
    );
    assert!(prompt.starts_with("カフェテリア"), "実際: {prompt}");
}

#[test]
fn drops_english_room_aliases() {
    let vocab = vocabulary(&[], &["カフェテリア", "Cafeteria", "リアクター", "Reactor"]);

    let prompt = build_recognition_context(&vocab, AMPLE_BUDGET, count_chars);

    assert!(prompt.contains("カフェテリア"), "実際: {prompt}");
    assert!(
        !prompt.contains("Cafeteria"),
        "英語表記が残っている: {prompt}"
    );
}

#[test]
fn keeps_player_names_when_rooms_do_not_fit() {
    let vocab = vocabulary(&["ゆう"], &["カフェテリア", "リアクター"]);
    // 予算を用語とプレイヤー名だけで埋まる程度に絞る。
    let budget = game_terms().join("、").chars().count() + "、ゆう".chars().count();

    let prompt = build_recognition_context(&vocab, budget, count_chars);

    assert!(prompt.ends_with("ゆう"), "プレイヤー名が落ちた: {prompt}");
    assert!(
        !prompt.contains("カフェテリア"),
        "部屋名が落ちていない: {prompt}"
    );
}
