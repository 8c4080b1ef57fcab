use amus::interaction::{
    CommsInteraction, CommsViewResult, EraserInteraction, LightsInteraction, LightsViewResult,
    O2Interaction, O2ViewResult, PlayerInfoInteraction, PlayerInfoResult, SetupInteraction,
    UserInfoInteraction, UserInfoResult,
};
use amus::state::{AppState, Area, Color, Player};

fn copy(p: &Player) -> Player {
    Player {
        id: p.id,
        name: p.name.clone(),
        color: p.color,
        resolved_comms: p.resolved_comms,
        resolved_lights: p.resolved_lights,
        resolved_o2: p.resolved_o2,
        done_button: p.done_button,
        editing_name: p.editing_name,
    }
}

fn no_info() -> PlayerInfoResult {
    PlayerInfoResult {
        any_name_double_clicked: false,
        double_clicked_player_id: None,
        any_name_changed: false,
        changed_new_name: None,
        any_lost_focus: false,
        lost_focus_player_id: None,
        any_done_button_clicked: false,
        done_button_clicked_player_id: None,
    }
}

/// A game of three players, Bob in seat 1.
fn game() -> AppState {
    let mut state = AppState::new();
    SetupInteraction::select_area(&mut state, Area::Polus);
    SetupInteraction::adjust_player_count(&mut state, 3);
    SetupInteraction::update_player_name(&mut state, 1, "ボブ".to_string());
    SetupInteraction::start_game(&mut state);
    state
}

fn player(state: &AppState, id: usize) -> Player {
    copy(&state.game().unwrap().players[id])
}

#[test]
fn the_setup_fills_new_seats_with_default_colors() {
    let mut state = AppState::new();
    SetupInteraction::adjust_player_count(&mut state, 3);
    assert_eq!(state.setup.players.len(), 3);
    assert_eq!(state.setup.players[2].id, 2);
    assert_eq!(state.setup.players[2].color, Color::Green);
    assert_eq!(state.setup.players[2].name, "");
    SetupInteraction::adjust_player_count(&mut state, 1);
    assert_eq!(state.setup.player_count, 1);
    assert_eq!(state.setup.players.len(), 3);
    assert_eq!(Color::default_for(18), Color::Red);
    assert_eq!(Color::default_for(17), Color::Coral);
}

#[test]
fn starting_a_game_takes_the_seats_in_use() {
    let state = game();
    let g = state.game().unwrap();
    assert_eq!(g.area, Area::Polus);
    assert_eq!(g.players.len(), 3);
    assert_eq!(g.players[1].name, "ボブ");
    assert_eq!(g.players[1].color, Color::Blue);
    assert!(!g.players[1].resolved_comms);
    assert!(!state.show_setup);
}

#[test]
fn toggling_a_sabotage_fix_twice_restores_it() {
    let mut state = game();
    let bob = player(&state, 1);
    CommsInteraction::handle(&mut state, &CommsViewResult { click_player: Some(copy(&bob)) });
    assert!(player(&state, 1).resolved_comms);
    assert!(!player(&state, 0).resolved_comms);
    CommsInteraction::handle(&mut state, &CommsViewResult { click_player: Some(copy(&bob)) });
    assert!(!player(&state, 1).resolved_comms);

    LightsInteraction::handle(&mut state, &LightsViewResult { click_player: Some(copy(&bob)) });
    assert!(player(&state, 1).resolved_lights);
    O2Interaction::handle(&mut state, &O2ViewResult { click_player: Some(copy(&bob)) });
    assert!(player(&state, 1).resolved_o2);
    O2Interaction::handle(&mut state, &O2ViewResult { click_player: None });
    assert!(player(&state, 1).resolved_o2);
}

#[test]
fn switching_the_eraser_twice_restores_it_and_clears_the_selection() {
    let mut state = game();
    state.set_selected_user_id(Some(2));
    EraserInteraction::toggle_eraser_mode(&mut state);
    assert!(state.erase_mode());
    assert_eq!(state.selected_user_id, None);
    EraserInteraction::toggle_eraser_mode(&mut state);
    assert!(!state.erase_mode());
}

#[test]
fn names_are_edited_from_the_player_panel() {
    let mut state = game();
    let mut res = no_info();
    res.any_name_double_clicked = true;
    res.double_clicked_player_id = Some(0);
    PlayerInfoInteraction::handle(&mut state, &res);
    assert!(player(&state, 0).editing_name);

    let mut res = no_info();
    res.any_name_changed = true;
    res.changed_new_name = Some(("アリス".to_string(), 0));
    res.any_lost_focus = true;
    res.lost_focus_player_id = Some(0);
    PlayerInfoInteraction::handle(&mut state, &res);
    assert_eq!(player(&state, 0).name, "アリス");
    assert_eq!(state.setup.players[0].name, "アリス");
    assert!(!player(&state, 0).editing_name);
}

#[test]
fn the_emergency_button_is_toggled() {
    let mut state = game();
    let mut res = no_info();
    res.any_done_button_clicked = true;
    res.done_button_clicked_player_id = Some(2);
    PlayerInfoInteraction::handle(&mut state, &res);
    assert!(player(&state, 2).done_button);
    PlayerInfoInteraction::player_done_button_clicked(&mut state, &res);
    assert!(!player(&state, 2).done_button);

    // No such player: nothing happens.
    res.done_button_clicked_player_id = Some(7);
    PlayerInfoInteraction::handle(&mut state, &res);
    assert!(!player(&state, 2).done_button);
}

#[test]
fn recoloring_changes_setup_and_game() {
    let mut state = game();
    SetupInteraction::update_player_color(&mut state, 0, Color::Lime);
    assert_eq!(player(&state, 0).color, Color::Lime);
    assert_eq!(state.setup.players[0].color, Color::Lime);
}

#[test]
fn cancelling_the_setup_keeps_the_game() {
    let mut state = game();
    state.show_setup = true;
    SetupInteraction::cancel(&mut state);
    assert!(!state.show_setup);
    assert!(state.game().is_some());
}

fn no_user_info() -> UserInfoResult {
    UserInfoResult {
        any_name_double_clicked: false,
        double_clicked_user_id: None,
        any_name_changed: false,
        changed_new_name: None,
        any_lost_focus: false,
        lost_focus_user_id: None,
    }
}

#[test]
fn user_names_are_edited_from_the_user_list() {
    let mut state = game();
    let mut res = no_user_info();
    res.any_name_double_clicked = true;
    res.double_clicked_user_id = Some(1);
    UserInfoInteraction::handle(&mut state, &res);
    assert!(state.setup.players[1].editing_name);
    assert!(!player(&state, 1).editing_name);

    let mut res = no_user_info();
    res.any_name_changed = true;
    res.changed_new_name = Some(("ボビー".to_string(), 1));
    UserInfoInteraction::handle(&mut state, &res);
    assert_eq!(state.setup.players[1].name, "ボビー");
    assert_eq!(player(&state, 1).name, "ボビー");

    let mut res = no_user_info();
    res.any_lost_focus = true;
    res.lost_focus_user_id = Some(1);
    UserInfoInteraction::user_name_lost_focus(&mut state, &res);
    assert!(!state.setup.players[1].editing_name);

    // A user that does not exist: nothing changes.
    let mut res = no_user_info();
    res.any_name_double_clicked = true;
    res.double_clicked_user_id = Some(9);
    UserInfoInteraction::user_double_clicked(&mut state, &res);
    assert_eq!(state.setup.players.len(), 3);
    assert!(!state.setup.players[2].editing_name);
}
