//! What the UI's clicks and edits do to the application state.

use vstd::prelude::*;
use crate::state::{
    edit_game, edit_setup, game_from_setup, toggle_setup_editing, AppModel, AppState, Area, Color, Player, PlayerEdit,
    PlayerId, SetupModel,
};

verus! {

/// What the communications sabotage window reports: the player clicked, if any.
pub struct CommsViewResult {
    pub click_player: Option<Player>,
}

/// What the lights sabotage window reports: the player clicked, if any.
pub struct LightsViewResult {
    pub click_player: Option<Player>,
}

/// What the oxygen sabotage window reports: the player clicked, if any.
pub struct O2ViewResult {
    pub click_player: Option<Player>,
}

/// Handles the communications sabotage window.
pub struct CommsInteraction;

impl CommsInteraction {
    /// A click on a player toggles whether that player fixed communications.
    pub fn handle(state: &mut AppState, res: &CommsViewResult)
        ensures
            final(state)@ == (match res.click_player {
                Some(p) => edit_game(old(state)@, p.id, PlayerEdit::ToggleComms),
                None => old(state)@,
            }),
            old(state).wf() ==> final(state).wf(),
    {
        match &res.click_player {
            Some(p) => state.toggle_comms(p.id),
            None => {},
        }
    }
}

/// Handles the lights sabotage window.
pub struct LightsInteraction;

impl LightsInteraction {
    /// A click on a player toggles whether that player fixed the lights.
    pub fn handle(state: &mut AppState, res: &LightsViewResult)
        ensures
            final(state)@ == (match res.click_player {
                Some(p) => edit_game(old(state)@, p.id, PlayerEdit::ToggleLights),
                None => old(state)@,
            }),
            old(state).wf() ==> final(state).wf(),
    {
        match &res.click_player {
            Some(p) => state.toggle_lights(p.id),
            None => {},
        }
    }
}

/// Handles the oxygen sabotage window.
pub struct O2Interaction;

impl O2Interaction {
    /// A click on a player toggles whether that player fixed the oxygen.
    pub fn handle(state: &mut AppState, res: &O2ViewResult)
        ensures
            final(state)@ == (match res.click_player {
                Some(p) => edit_game(old(state)@, p.id, PlayerEdit::ToggleO2),
                None => old(state)@,
            }),
            old(state).wf() ==> final(state).wf(),
    {
        match &res.click_player {
            Some(p) => state.toggle_o2(p.id),
            None => {},
        }
    }
}

/// The state after switching the eraser: erasing flips and no player stays
/// selected.
pub open spec fn eraser_toggled(m: AppModel) -> AppModel {
    AppModel { erase_mode: !m.erase_mode, selected_user_id: None, ..m }
}

/// Switching the eraser twice restores erase mode; the selection stays cleared.
pub proof fn eraser_twice_restores(m: AppModel)
    ensures
        eraser_toggled(eraser_toggled(m)) == (AppModel { selected_user_id: None, ..m }),
{
}

/// Handles the eraser tool.
pub struct EraserInteraction;

impl EraserInteraction {
    /// Switches erasing on or off; either way no player stays selected.
    pub fn toggle_eraser_mode(state: &mut AppState)
        ensures
            final(state)@ == eraser_toggled(old(state)@),
            old(state).wf() ==> final(state).wf(),
    {
        let current = state.erase_mode();
        state.set_erase_mode(!current);
        state.set_selected_user_id(None);
    }
}

/// What the player information panel reports.
pub struct PlayerInfoResult {
    pub any_name_double_clicked: bool,
    pub double_clicked_player_id: Option<PlayerId>,
    pub any_name_changed: bool,
    /// The new name and the player it belongs to.
    pub changed_new_name: Option<(String, PlayerId)>,
    pub any_lost_focus: bool,
    pub lost_focus_player_id: Option<PlayerId>,
    pub any_done_button_clicked: bool,
    pub done_button_clicked_player_id: Option<PlayerId>,
}

/// After a double click on a name: that name's editing is toggled.
pub open spec fn after_double_click(m: AppModel, res: PlayerInfoResult) -> AppModel {
    match res.double_clicked_player_id {
        Some(id) => edit_game(m, id, PlayerEdit::ToggleEditingName),
        None => m,
    }
}

/// After a name was edited: the player is renamed.
pub open spec fn after_name_change(m: AppModel, res: PlayerInfoResult) -> AppModel {
    match res.changed_new_name {
        Some((name, id)) => edit_game(edit_setup(m, id, Some(name), None), id, PlayerEdit::SetName(name)),
        None => m,
    }
}

/// After a name field lost focus: that name's editing is toggled.
pub open spec fn after_lost_focus(m: AppModel, res: PlayerInfoResult) -> AppModel {
    match res.lost_focus_player_id {
        Some(id) => edit_game(m, id, PlayerEdit::ToggleEditingName),
        None => m,
    }
}

/// After a click on a player's button mark: whether the player used the
/// emergency button flips (only in a game, for a player of it).
pub open spec fn after_done_click(m: AppModel, res: PlayerInfoResult) -> AppModel {
    match m.game {
        Some(g) => match res.done_button_clicked_player_id {
            Some(id) => if id < g.players.len() {
                edit_game(m, id, PlayerEdit::SetDoneButton(!g.players[id as int].done_button))
            } else {
                m
            },
            None => m,
        },
        None => m,
    }
}

/// Everything the player information panel reported, applied in order.
pub open spec fn after_player_info(m: AppModel, res: PlayerInfoResult) -> AppModel {
    let m1 = if res.any_name_double_clicked { after_double_click(m, res) } else { m };
    let m2 = if res.any_name_changed { after_name_change(m1, res) } else { m1 };
    let m3 = if res.any_lost_focus { after_lost_focus(m2, res) } else { m2 };
    if res.any_done_button_clicked { after_done_click(m3, res) } else { m3 }
}

/// Handles the player information panel.
pub struct PlayerInfoInteraction;

impl PlayerInfoInteraction {
    /// Applies what the panel reported: a double click, a name edit, a lost
    /// focus and a button-mark click, in that order.
    pub fn handle(state: &mut AppState, res: &PlayerInfoResult)
        ensures
            final(state)@ == after_player_info(old(state)@, *res),
            old(state).wf() ==> final(state).wf(),
    {
        if res.any_name_double_clicked {
            Self::player_double_clicked(state, res);
        }
        if res.any_name_changed {
            Self::player_name_changed(state, res);
        }
        if res.any_lost_focus {
            Self::player_name_lost_focus(state, res);
        }
        if res.any_done_button_clicked {
            Self::player_done_button_clicked(state, res);
        }
    }

    /// A double click on a name starts (or stops) editing it.
    pub fn player_double_clicked(state: &mut AppState, res: &PlayerInfoResult)
        ensures
            final(state)@ == after_double_click(old(state)@, *res),
            old(state).wf() ==> final(state).wf(),
    {
        if let Some(player_id) = res.double_clicked_player_id {
            state.toggle_player_name_editing(player_id);
        }
    }

    /// An edited name renames the player.
    pub fn player_name_changed(state: &mut AppState, res: &PlayerInfoResult)
        ensures
            final(state)@ == after_name_change(old(state)@, *res),
            old(state).wf() ==> final(state).wf(),
    {
        if let Some((new_name, user_id)) = &res.changed_new_name {
            state.update_player_name(*user_id, new_name.clone());
        }
    }

    /// A name field losing focus ends (or starts) editing it.
    pub fn player_name_lost_focus(state: &mut AppState, res: &PlayerInfoResult)
        ensures
            final(state)@ == after_lost_focus(old(state)@, *res),
            old(state).wf() ==> final(state).wf(),
    {
        if let Some(user_id) = res.lost_focus_player_id {
            state.toggle_player_name_editing(user_id);
        }
    }

    /// A click on a player's button mark flips whether the player used the
    /// emergency button.
    pub fn player_done_button_clicked(state: &mut AppState, res: &PlayerInfoResult)
        ensures
            final(state)@ == after_done_click(old(state)@, *res),
            old(state).wf() ==> final(state).wf(),
    {
        let done = match state.game() {
            Some(game) => match res.done_button_clicked_player_id {
                Some(player_id) => if player_id < game.players.len() {
                    Some((player_id, game.players[player_id].done_button))
                } else {
                    None
                },
                None => None,
            },
            None => None,
        };
        if let Some((player_id, was_done)) = done {
            state.update_player_button(player_id, !was_done);
        }
    }
}

/// What the user list (the players as entered in the setup) reports.
pub struct UserInfoResult {
    pub any_name_double_clicked: bool,
    pub double_clicked_user_id: Option<PlayerId>,
    pub any_name_changed: bool,
    /// The new name and the user it belongs to.
    pub changed_new_name: Option<(String, PlayerId)>,
    pub any_lost_focus: bool,
    pub lost_focus_user_id: Option<PlayerId>,
}

/// After a double click on a user's name: that name's editing is toggled.
pub open spec fn after_user_double_click(m: AppModel, res: UserInfoResult) -> AppModel {
    match res.double_clicked_user_id {
        Some(id) => toggle_setup_editing(m, id),
        None => m,
    }
}

/// After a user's name was edited: the user is renamed, in the setup and in the game.
pub open spec fn after_user_name_change(m: AppModel, res: UserInfoResult) -> AppModel {
    match res.changed_new_name {
        Some((name, id)) => edit_game(edit_setup(m, id, Some(name), None), id, PlayerEdit::SetName(name)),
        None => m,
    }
}

/// After a user's name field lost focus: that name's editing is toggled.
pub open spec fn after_user_lost_focus(m: AppModel, res: UserInfoResult) -> AppModel {
    match res.lost_focus_user_id {
        Some(id) => toggle_setup_editing(m, id),
        None => m,
    }
}

/// Everything the user list reported, in order: double click, name change,
/// loss of focus, each only when reported.
pub open spec fn after_user_info(m: AppModel, res: UserInfoResult) -> AppModel {
    let m1 = if res.any_name_double_clicked { after_user_double_click(m, res) } else { m };
    let m2 = if res.any_name_changed { after_user_name_change(m1, res) } else { m1 };
    if res.any_lost_focus { after_user_lost_focus(m2, res) } else { m2 }
}

/// Handles the user list.
pub struct UserInfoInteraction;

impl UserInfoInteraction {
    /// Applies what the user list reported.
    pub fn handle(state: &mut AppState, res: &UserInfoResult)
        ensures
            final(state)@ == after_user_info(old(state)@, *res),
            old(state).wf() ==> final(state).wf(),
    {
        if res.any_name_double_clicked {
            Self::user_double_clicked(state, res);
        }
        if res.any_name_changed {
            Self::user_name_changed(state, res);
        }
        if res.any_lost_focus {
            Self::user_name_lost_focus(state, res);
        }
    }

    /// A double click on a user's name starts or stops editing it.
    pub fn user_double_clicked(state: &mut AppState, res: &UserInfoResult)
        ensures
            final(state)@ == after_user_double_click(old(state)@, *res),
            old(state).wf() ==> final(state).wf(),
    {
        if let Some(user_id) = res.double_clicked_user_id {
            state.toggle_user_name_editing(user_id);
        }
    }

    /// An edited name renames the user.
    pub fn user_name_changed(state: &mut AppState, res: &UserInfoResult)
        ensures
            final(state)@ == after_user_name_change(old(state)@, *res),
            old(state).wf() ==> final(state).wf(),
    {
        if let Some((new_name, user_id)) = &res.changed_new_name {
            state.update_player_name(*user_id, new_name.clone());
        }
    }

    /// Leaving a name field starts or stops editing it.
    pub fn user_name_lost_focus(state: &mut AppState, res: &UserInfoResult)
        ensures
            final(state)@ == after_user_lost_focus(old(state)@, *res),
            old(state).wf() ==> final(state).wf(),
    {
        if let Some(user_id) = res.lost_focus_user_id {
            state.toggle_user_name_editing(user_id);
        }
    }
}

/// Handles the setup dialog.
pub struct SetupInteraction;

impl SetupInteraction {
    /// Chooses the map.
    pub fn select_area(state: &mut AppState, area: Area)
        ensures
            final(state)@ == (AppModel { setup: SetupModel { selected_area: area, ..old(state)@.setup }, ..old(state)@ }),
    {
        state.set_selected_area(area);
    }

    /// Sets the number of players; seats never filled are added with no name
    /// and their default color.
    pub fn adjust_player_count(state: &mut AppState, new_count: usize)
        ensures
            final(state)@.setup.player_count == new_count,
            final(state)@.setup.selected_area == old(state)@.setup.selected_area,
            final(state)@.setup.players.len() == (if new_count > old(state)@.setup.players.len() { new_count as int } else { old(state)@.setup.players.len() as int }),
            forall|i: int| 0 <= i < old(state)@.setup.players.len() ==> #[trigger] final(state)@.setup.players[i] == old(state)@.setup.players[i],
            forall|i: int| old(state)@.setup.players.len() <= i < final(state)@.setup.players.len() ==> {
                &&& (#[trigger] final(state)@.setup.players[i]).id == i
                &&& final(state)@.setup.players[i].name@ == Seq::<char>::empty()
                &&& final(state)@.setup.players[i].color == crate::state::spec_default_color(i as usize)
                &&& !final(state)@.setup.players[i].editing_name
            },
            final(state)@.game == old(state)@.game,
            final(state)@.show_setup == old(state)@.show_setup,
            final(state)@.erase_mode == old(state)@.erase_mode,
            final(state)@.selected_user_id == old(state)@.selected_user_id,
            old(state).wf() ==> final(state).wf(),
    {
        state.adjust_player_count(new_count);
    }

    /// Renames player `id`.
    pub fn update_player_name(state: &mut AppState, id: PlayerId, name: String)
        ensures
            final(state)@ == edit_game(edit_setup(old(state)@, id, Some(name), None), id, PlayerEdit::SetName(name)),
            old(state).wf() ==> final(state).wf(),
    {
        state.update_player_name(id, name);
    }

    /// Recolors player `id`.
    pub fn update_player_color(state: &mut AppState, id: PlayerId, color: Color)
        ensures
            final(state)@ == edit_game(edit_setup(old(state)@, id, None, Some(color)), id, PlayerEdit::SetColor(color)),
            old(state).wf() ==> final(state).wf(),
    {
        state.update_player_color(id, color);
    }

    /// Starts a new game from the setup, replacing any game in progress.
    pub fn start_game(state: &mut AppState)
        ensures
            final(state)@ == (AppModel {
                game: Some(game_from_setup(old(state)@.setup)),
                show_setup: false,
                selected_user_id: None,
                ..old(state)@
            }),
            old(state).wf() ==> final(state).wf(),
    {
        state.reset_game();
        state.create_game_from_setup();
    }

    /// Closes the setup without starting a game.
    pub fn cancel(state: &mut AppState)
        ensures
            final(state)@ == (AppModel { show_setup: false, ..old(state)@ }),
    {
        state.cancel_setup();
    }
}

} // verus!
