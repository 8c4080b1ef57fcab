use amus::memo::VoiceMemoFeature;
use amus::prompt::Vocabulary;

static ROOMS: [&str; 3] = ["エレキ", "Electrical", "カフェテリア"];
static OTHER_ROOMS: [&str; 1] = ["ラボ"];

fn count_chars(text: &str) -> usize {
    text.chars().count()
}

fn names(list: &[&str]) -> Vec<String> {
    list.iter().map(|s| s.to_string()).collect()
}

#[test]
fn empty_player_names_are_left_out() {
    let v = Vocabulary::from_players(&names(&["ゆう", "", "かえで"]), &ROOMS);
    assert_eq!(v.player_names, vec!["ゆう".to_string(), "かえで".to_string()]);
    assert_eq!(v.room_names.len(), 3);
}

#[test]
fn vocabularies_compare_by_their_names() {
    let a = Vocabulary::from_players(&names(&["ゆう"]), &ROOMS);
    let b = Vocabulary::from_players(&names(&["ゆう", ""]), &ROOMS);
    let c = Vocabulary::from_players(&names(&["かえで"]), &ROOMS);
    let d = Vocabulary::from_players(&names(&["ゆう"]), &OTHER_ROOMS);
    assert!(a.same_as(&b));
    assert!(!a.same_as(&c));
    assert!(!a.same_as(&d));
    assert!(a.copied().same_as(&a));
}

#[test]
fn the_corrector_follows_the_vocabulary() {
    let mut feature = VoiceMemoFeature::default();
    assert_eq!(feature.corrector.correct("えれきにいた"), "えれきにいた");
    feature.set_vocabulary(&names(&["かえで"]), &ROOMS);
    assert_eq!(feature.corrector.correct("えれきにいた"), "エレキにいた");
    assert_eq!(feature.corrector.correct("かえでと会った"), "かえでと会った");
    let v = feature.vocabulary.as_ref().unwrap();
    assert_eq!(v.player_names, vec!["かえで".to_string()]);
}

#[test]
fn the_context_is_built_once_per_vocabulary() {
    let mut feature = VoiceMemoFeature::default();
    feature.refresh_context(true, 1000, count_chars);
    assert!(feature.context.is_none());

    feature.set_vocabulary(&names(&["ゆう"]), &ROOMS);
    feature.refresh_context(false, 1000, count_chars);
    assert!(feature.context.is_none());

    feature.refresh_context(true, 1000, count_chars);
    let context = feature.context.clone().unwrap();
    assert!(context.starts_with("エレキ、カフェテリア"), "{context}");
    assert!(context.ends_with("ゆう"), "{context}");
    assert!(!context.contains("Electrical"), "{context}");

    // The same vocabulary again: nothing is rebuilt, whatever the budget.
    feature.set_vocabulary(&names(&["ゆう"]), &ROOMS);
    feature.refresh_context(true, 2, count_chars);
    assert_eq!(feature.context.as_deref(), Some(context.as_str()));

    // Another player: rebuilt within the new budget, player names last to go.
    feature.set_vocabulary(&names(&["ゆう", "かえで"]), &ROOMS);
    feature.refresh_context(true, 6, count_chars);
    assert_eq!(feature.context.as_deref(), Some("ゆう、かえで"));
}

#[test]
fn a_downloaded_model_has_the_context_built_again() {
    let mut feature = VoiceMemoFeature::default();
    feature.set_vocabulary(&names(&["ゆう"]), &ROOMS);
    feature.refresh_context(true, 1000, count_chars);
    assert!(feature.context_vocabulary.is_some());

    feature.download_finished(Err("失敗".to_string()));
    assert!(feature.context_vocabulary.is_some());

    feature.download_finished(Ok(()));
    assert!(feature.context_vocabulary.is_none());
    assert!(feature.state.model_available);
    // The next refresh builds it again, here within a smaller budget.
    feature.refresh_context(true, 2, count_chars);
    assert_eq!(feature.context.as_deref(), Some("ゆう"));
    assert!(feature.context_vocabulary.is_some());
}
