use amus::vocabulary::VocabularyCorrector;

fn corrector() -> VocabularyCorrector {
    VocabularyCorrector::new(&["エレキ", "エンジン", "カフェテリア"])
}

#[test]
fn writes_a_kana_heard_word_in_its_known_form() {
    // プロンプトに載せても、その表記で出てくるとは限らない
    assert_eq!(corrector().correct("えれきにいた"), "エレキにいた");
}

#[test]
fn corrects_a_word_that_never_fit_in_the_prompt() {
    // 部屋名はトークン予算を超えて落ちるが、補正は予算と無関係に効く
    assert_eq!(corrector().correct("えんじんで死体"), "エンジンで死体");
}

#[test]
fn leaves_a_word_that_is_already_written_correctly() {
    assert_eq!(corrector().correct("エレキにいた"), "エレキにいた");
}

#[test]
fn prefers_the_longer_word_when_two_overlap() {
    // 「エレキ」が先に当たると「ガチャガチャ」が取り残される
    let corrector = VocabularyCorrector::new(&["エレキ", "エレキガチャガチャ"]);

    assert_eq!(
        corrector.correct("えれきがちゃがちゃで会った"),
        "エレキガチャガチャで会った"
    );
}

#[test]
fn vocabulary_absorbs_a_long_vowel_written_as_a_kana() {
    let corrector = VocabularyCorrector::new(&["カフェテリア", "ターン"]);

    assert_eq!(corrector.correct("たあんの話"), "ターンの話");
}

#[test]
fn keeps_punctuation_that_sits_before_the_word() {
    // 読みは区切り記号を落とすため、元の位置へ戻すときに巻き込みやすい
    assert_eq!(
        corrector().correct("そこで、えれきに行った"),
        "そこで、エレキに行った"
    );
}

#[test]
fn leaves_speech_that_matches_nothing() {
    assert_eq!(
        corrector().correct("さっきタスクやってた"),
        "さっきタスクやってた"
    );
}
