//! The game state that the UI edits: the players of the game being recorded,
//! the game setup, and the editing modes.

use vstd::prelude::*;

verus! {

/// Crewmate colors.
#[derive(Debug, Clone, Copy, PartialEq, Eq, Structural)]
pub enum Color {
    Red,
    Blue,
    Green,
    Pink,
    Orange,
    Yellow,
    Black,
    White,
    Purple,
    Brown,
    Cyan,
    Lime,
    Maroon,
    Rose,
    Banana,
    Gray,
    Tan,
    Coral,
}

/// The color given to the player in seat `seat` by default: the colors in
/// their usual order, starting over after the last one.
pub open spec fn spec_default_color(seat: usize) -> Color {
    let k = seat % 18;
    if k == 0 { Color::Red }
    else if k == 1 { Color::Blue }
    else if k == 2 { Color::Green }
    else if k == 3 { Color::Pink }
    else if k == 4 { Color::Orange }
    else if k == 5 { Color::Yellow }
    else if k == 6 { Color::Black }
    else if k == 7 { Color::White }
    else if k == 8 { Color::Purple }
    else if k == 9 { Color::Brown }
    else if k == 10 { Color::Cyan }
    else if k == 11 { Color::Lime }
    else if k == 12 { Color::Maroon }
    else if k == 13 { Color::Rose }
    else if k == 14 { Color::Banana }
    else if k == 15 { Color::Gray }
    else if k == 16 { Color::Tan }
    else { Color::Coral }
}

impl Color {
    /// The default color of seat `seat`.
    pub fn default_for(seat: usize) -> (r: Color)
        ensures
            r == spec_default_color(seat),
    {
        let k = seat % 18;
        if k == 0 { Color::Red }
        else if k == 1 { Color::Blue }
        else if k == 2 { Color::Green }
        else if k == 3 { Color::Pink }
        else if k == 4 { Color::Orange }
        else if k == 5 { Color::Yellow }
        else if k == 6 { Color::Black }
        else if k == 7 { Color::White }
        else if k == 8 { Color::Purple }
        else if k == 9 { Color::Brown }
        else if k == 10 { Color::Cyan }
        else if k == 11 { Color::Lime }
        else if k == 12 { Color::Maroon }
        else if k == 13 { Color::Rose }
        else if k == 14 { Color::Banana }
        else if k == 15 { Color::Gray }
        else if k == 16 { Color::Tan }
        else { Color::Coral }
    }
}

/// The maps.
#[derive(Debug, Clone, Copy, PartialEq, Eq, Structural)]
pub enum Area {
    Skeld,
    Mira,
    Polus,
    AirShip,
}

/// A player's identifier: the player's seat, which is also its index in the
/// player lists.
pub type PlayerId = usize;

/// A player of the game being recorded.
#[derive(Debug)]
pub struct Player {
    pub id: PlayerId,
    pub name: String,
    pub color: Color,
    /// Whether the player has fixed the communications sabotage.
    pub resolved_comms: bool,
    /// Whether the player has fixed the lights sabotage.
    pub resolved_lights: bool,
    /// Whether the player has fixed the oxygen sabotage.
    pub resolved_o2: bool,
    /// Whether the player has used the emergency button.
    pub done_button: bool,
    /// Whether the player's name is being edited.
    pub editing_name: bool,
}

/// The game being recorded.
#[derive(Debug)]
pub struct Game {
    pub area: Area,
    pub players: Vec<Player>,
}

/// A player as entered in the setup dialog.
#[derive(Debug)]
pub struct SetupPlayer {
    pub id: PlayerId,
    pub name: String,
    pub color: Color,
    /// Whether the name is being edited.
    pub editing_name: bool,
}

/// The setup dialog's state.
#[derive(Debug)]
pub struct SetupState {
    pub selected_area: Area,
    /// How many of `players` take part.
    pub player_count: usize,
    pub players: Vec<SetupPlayer>,
}

/// The application state the interactions edit.
#[derive(Debug)]
pub struct AppState {
    pub game: Option<Game>,
    pub setup: SetupState,
    /// Whether the setup dialog is open.
    pub show_setup: bool,
    /// Whether dragging on the map erases routes instead of drawing them.
    pub erase_mode: bool,
    /// The player whose routes and positions are being drawn.
    pub selected_user_id: Option<PlayerId>,
}

/// A change to one player.
pub enum PlayerEdit {
    ToggleComms,
    ToggleLights,
    ToggleO2,
    ToggleEditingName,
    SetDoneButton(bool),
    SetName(String),
    SetColor(Color),
}

/// `p` after the change `e`.
pub open spec fn edited(p: Player, e: PlayerEdit) -> Player {
    match e {
        PlayerEdit::ToggleComms => Player { resolved_comms: !p.resolved_comms, ..p },
        PlayerEdit::ToggleLights => Player { resolved_lights: !p.resolved_lights, ..p },
        PlayerEdit::ToggleO2 => Player { resolved_o2: !p.resolved_o2, ..p },
        PlayerEdit::ToggleEditingName => Player { editing_name: !p.editing_name, ..p },
        PlayerEdit::SetDoneButton(done) => Player { done_button: done, ..p },
        PlayerEdit::SetName(name) => Player { name, ..p },
        PlayerEdit::SetColor(color) => Player { color, ..p },
    }
}

/// `players` with the player at index `id` changed by `e`, when there is one.
pub open spec fn edit_at(players: Seq<Player>, id: PlayerId, e: PlayerEdit) -> Seq<Player> {
    if id < players.len() {
        players.update(id as int, edited(players[id as int], e))
    } else {
        players
    }
}

/// The game as the contracts see it.
pub struct GameModel {
    pub area: Area,
    pub players: Seq<Player>,
}

/// The setup as the contracts see it.
pub struct SetupModel {
    pub selected_area: Area,
    pub player_count: usize,
    pub players: Seq<SetupPlayer>,
}

/// The application state as the contracts see it.
pub struct AppModel {
    pub game: Option<GameModel>,
    pub setup: SetupModel,
    pub show_setup: bool,
    pub erase_mode: bool,
    pub selected_user_id: Option<PlayerId>,
}

impl View for AppState {
    type V = AppModel;

    open spec fn view(&self) -> AppModel {
        AppModel {
            game: match self.game {
                Some(g) => Some(GameModel { area: g.area, players: g.players@ }),
                None => None,
            },
            setup: SetupModel {
                selected_area: self.setup.selected_area,
                player_count: self.setup.player_count,
                players: self.setup.players@,
            },
            show_setup: self.show_setup,
            erase_mode: self.erase_mode,
            selected_user_id: self.selected_user_id,
        }
    }
}

/// `m` with game player `id` changed by `e` (nothing changes without a game).
pub open spec fn edit_game(m: AppModel, id: PlayerId, e: PlayerEdit) -> AppModel {
    match m.game {
        Some(g) => AppModel { game: Some(GameModel { players: edit_at(g.players, id, e), ..g }), ..m },
        None => m,
    }
}

/// `m` with setup player `id` renamed to `name` and recolored to `color` (each
/// when given; nothing changes without such a player).
pub open spec fn edit_setup(m: AppModel, id: PlayerId, name: Option<String>, color: Option<Color>) -> AppModel {
    if id < m.setup.players.len() {
        let p = m.setup.players[id as int];
        let q = SetupPlayer {
            name: match name { Some(n) => n, None => p.name },
            color: match color { Some(c) => c, None => p.color },
            ..p
        };
        AppModel { setup: SetupModel { players: m.setup.players.update(id as int, q), ..m.setup }, ..m }
    } else {
        m
    }
}

/// `m` with setup player `id`'s name editing switched; nothing changes
/// without such a player.
pub open spec fn toggle_setup_editing(m: AppModel, id: PlayerId) -> AppModel {
    if id < m.setup.players.len() {
        let p = m.setup.players[id as int];
        let q = SetupPlayer { editing_name: !p.editing_name, ..p };
        AppModel { setup: SetupModel { players: m.setup.players.update(id as int, q), ..m.setup }, ..m }
    } else {
        m
    }
}

/// The game started from setup `s`: its map and the players of the first
/// `player_count` seats.
pub open spec fn game_from_setup(s: SetupModel) -> GameModel {
    let n = if s.player_count < s.players.len() { s.player_count as int } else { s.players.len() as int };
    GameModel { area: s.selected_area, players: Seq::new(n as nat, |i: int| player_from_setup(s.players[i])) }
}

/// Whether every player sits at the index of its identifier.
pub open spec fn seated(players: Seq<Player>) -> bool {
    forall|i: int| 0 <= i < players.len() ==> #[trigger] players[i].id == i
}

/// Whether every setup player sits at the index of its identifier.
pub open spec fn setup_seated(players: Seq<SetupPlayer>) -> bool {
    forall|i: int| 0 <= i < players.len() ==> #[trigger] players[i].id == i
}

/// The player of the game made from setup player `p`: nothing fixed, button unused.
pub open spec fn player_from_setup(p: SetupPlayer) -> Player {
    Player {
        id: p.id,
        name: p.name,
        color: p.color,
        resolved_comms: false,
        resolved_lights: false,
        resolved_o2: false,
        done_button: false,
        editing_name: false,
    }
}

impl AppState {
    /// Whether identifiers match positions in both player lists.
    pub open spec fn wf(&self) -> bool {
        &&& setup_seated(self.setup.players@)
        &&& match self.game {
            Some(g) => seated(g.players@),
            None => true,
        }
    }

    /// Changes game player `id` by `e`; nothing happens without a game or such a player.
    pub fn edit_game_player(&mut self, id: PlayerId, e: PlayerEdit)
        ensures
            final(self)@ == edit_game(old(self)@, id, e),
            old(self).wf() ==> final(self).wf(),
    {
        let taken = self.game.take();
        match taken {
            Some(mut game) => {
                if id < game.players.len() {
                    let ghost before = game.players@;
                    let mut p = game.players.remove(id);
                    assert(p == before[id as int]);
                    match e {
                        PlayerEdit::ToggleComms => p.resolved_comms = !p.resolved_comms,
                        PlayerEdit::ToggleLights => p.resolved_lights = !p.resolved_lights,
                        PlayerEdit::ToggleO2 => p.resolved_o2 = !p.resolved_o2,
                        PlayerEdit::ToggleEditingName => p.editing_name = !p.editing_name,
                        PlayerEdit::SetDoneButton(done) => p.done_button = done,
                        PlayerEdit::SetName(name) => p.name = name,
                        PlayerEdit::SetColor(color) => p.color = color,
                    }
                    game.players.insert(id, p);
                    assert(game.players@ =~= edit_at(before, id, e));
                }
                self.game = Some(game);
            },
            None => {},
        }
    }

    /// Starts or stops editing the name of setup player `id`.
    pub fn toggle_user_name_editing(&mut self, id: PlayerId)
        ensures
            final(self)@ == toggle_setup_editing(old(self)@, id),
            old(self).wf() ==> final(self).wf(),
    {
        if id < self.setup.players.len() {
            let ghost before = self.setup.players@;
            let mut p = self.setup.players.remove(id);
            assert(p == before[id as int]);
            p.editing_name = !p.editing_name;
            self.setup.players.insert(id, p);
            assert(self.setup.players@ =~= before.update(id as int, p));
        }
    }

    /// Renames and recolors setup player `id` (each when given).
    pub fn edit_setup_player(&mut self, id: PlayerId, name: Option<String>, color: Option<Color>)
        ensures
            final(self)@ == edit_setup(old(self)@, id, name, color),
            old(self).wf() ==> final(self).wf(),
    {
        if id < self.setup.players.len() {
            let ghost before = self.setup.players@;
            let mut p = self.setup.players.remove(id);
            assert(p == before[id as int]);
            match name {
                Some(n) => p.name = n,
                None => {},
            }
            match color {
                Some(c) => p.color = c,
                None => {},
            }
            self.setup.players.insert(id, p);
            assert(self.setup.players@ =~= before.update(id as int, p));
        }
    }

    /// No game yet, an empty setup on the Skeld, nothing selected.
    pub fn new() -> (r: Self)
        ensures
            r.wf(),
            r.game is None,
            r.setup.selected_area == Area::Skeld,
            r.setup.player_count == 0,
            r.setup.players@.len() == 0,
            !r.show_setup,
            !r.erase_mode,
            r.selected_user_id is None,
    {
        AppState {
            game: None,
            setup: SetupState { selected_area: Area::Skeld, player_count: 0, players: Vec::new() },
            show_setup: false,
            erase_mode: false,
            selected_user_id: None,
        }
    }

    /// The game being recorded, if any.
    pub fn game(&self) -> (r: Option<&Game>)
        ensures
            r == (match self.game {
                Some(g) => Some(&g),
                None => None::<&Game>,
            }),
    {
        match &self.game {
            Some(g) => Some(g),
            None => None,
        }
    }

    /// Whether dragging erases routes.
    pub fn erase_mode(&self) -> (r: bool)
        ensures
            r == self.erase_mode,
    {
        self.erase_mode
    }

    /// Switches erasing on or off.
    pub fn set_erase_mode(&mut self, on: bool)
        ensures
            final(self)@ == (AppModel { erase_mode: on, ..old(self)@ }),
    {
        self.erase_mode = on;
    }

    /// Selects a player, or nobody.
    pub fn set_selected_user_id(&mut self, id: Option<PlayerId>)
        ensures
            final(self)@ == (AppModel { selected_user_id: id, ..old(self)@ }),
    {
        self.selected_user_id = id;
    }

    /// Toggles whether player `id` fixed the communications sabotage.
    pub fn toggle_comms(&mut self, id: PlayerId)
        ensures
            final(self)@ == edit_game(old(self)@, id, PlayerEdit::ToggleComms),
            old(self).wf() ==> final(self).wf(),
    {
        self.edit_game_player(id, PlayerEdit::ToggleComms);
    }

    /// Toggles whether player `id` fixed the lights sabotage.
    pub fn toggle_lights(&mut self, id: PlayerId)
        ensures
            final(self)@ == edit_game(old(self)@, id, PlayerEdit::ToggleLights),
            old(self).wf() ==> final(self).wf(),
    {
        self.edit_game_player(id, PlayerEdit::ToggleLights);
    }

    /// Toggles whether player `id` fixed the oxygen sabotage.
    pub fn toggle_o2(&mut self, id: PlayerId)
        ensures
            final(self)@ == edit_game(old(self)@, id, PlayerEdit::ToggleO2),
            old(self).wf() ==> final(self).wf(),
    {
        self.edit_game_player(id, PlayerEdit::ToggleO2);
    }

    /// Starts or stops editing player `id`'s name.
    pub fn toggle_player_name_editing(&mut self, id: PlayerId)
        ensures
            final(self)@ == edit_game(old(self)@, id, PlayerEdit::ToggleEditingName),
            old(self).wf() ==> final(self).wf(),
    {
        self.edit_game_player(id, PlayerEdit::ToggleEditingName);
    }

    /// Records whether player `id` has used the emergency button.
    pub fn update_player_button(&mut self, id: PlayerId, done: bool)
        ensures
            final(self)@ == edit_game(old(self)@, id, PlayerEdit::SetDoneButton(done)),
            old(self).wf() ==> final(self).wf(),
    {
        self.edit_game_player(id, PlayerEdit::SetDoneButton(done));
    }

    /// Renames player `id`, in the setup and in the game.
    pub fn update_player_name(&mut self, id: PlayerId, name: String)
        ensures
            final(self)@ == edit_game(edit_setup(old(self)@, id, Some(name), None), id, PlayerEdit::SetName(name)),
            old(self).wf() ==> final(self).wf(),
    {
        let copy = name.clone();
        self.edit_setup_player(id, Some(copy), None);
        self.edit_game_player(id, PlayerEdit::SetName(name));
    }

    /// Recolors player `id`, in the setup and in the game.
    pub fn update_player_color(&mut self, id: PlayerId, color: Color)
        ensures
            final(self)@ == edit_game(edit_setup(old(self)@, id, None, Some(color)), id, PlayerEdit::SetColor(color)),
            old(self).wf() ==> final(self).wf(),
    {
        self.edit_setup_player(id, None, Some(color));
        self.edit_game_player(id, PlayerEdit::SetColor(color));
    }

    /// Chooses the map of the game being set up.
    pub fn set_selected_area(&mut self, area: Area)
        ensures
            final(self)@ == (AppModel { setup: SetupModel { selected_area: area, ..old(self)@.setup }, ..old(self)@ }),
    {
        self.setup.selected_area = area;
    }

    /// Sets how many players take part. Seats that were never filled are
    /// added with no name and their default color; seats beyond the count keep
    /// what was entered, for when the count goes back up.
    pub fn adjust_player_count(&mut self, count: usize)
        ensures
            final(self)@.setup.player_count == count,
            final(self)@.setup.selected_area == old(self)@.setup.selected_area,
            final(self)@.setup.players.len() == (if count > old(self)@.setup.players.len() { count as int } else { old(self)@.setup.players.len() as int }),
            forall|i: int| 0 <= i < old(self)@.setup.players.len() ==> #[trigger] final(self)@.setup.players[i] == old(self)@.setup.players[i],
            forall|i: int| old(self)@.setup.players.len() <= i < final(self)@.setup.players.len() ==> {
                &&& (#[trigger] final(self)@.setup.players[i]).id == i
                &&& final(self)@.setup.players[i].name@ == Seq::<char>::empty()
                &&& final(self)@.setup.players[i].color == spec_default_color(i as usize)
                &&& !final(self)@.setup.players[i].editing_name
            },
            final(self)@.game == old(self)@.game,
            final(self)@.show_setup == old(self)@.show_setup,
            final(self)@.erase_mode == old(self)@.erase_mode,
            final(self)@.selected_user_id == old(self)@.selected_user_id,
            old(self).wf() ==> final(self).wf(),
    {
        let ghost before = self.setup.players@;
        while self.setup.players.len() < count
            invariant
                before == old(self).setup.players@,
                self.game == old(self).game,
                self.show_setup == old(self).show_setup,
                self.erase_mode == old(self).erase_mode,
                self.selected_user_id == old(self).selected_user_id,
                self.setup.selected_area == old(self).setup.selected_area,
                before.len() <= self.setup.players@.len() <= (if count > before.len() { count as int } else { before.len() as int }),
                forall|i: int| 0 <= i < before.len() ==> #[trigger] self.setup.players@[i] == before[i],
                forall|i: int| before.len() <= i < self.setup.players@.len() ==> {
                    &&& (#[trigger] self.setup.players@[i]).id == i
                    &&& self.setup.players@[i].name@ == Seq::<char>::empty()
                    &&& self.setup.players@[i].color == spec_default_color(i as usize)
                    &&& !self.setup.players@[i].editing_name
                },
            decreases count - self.setup.players@.len(),
        {
            let seat = self.setup.players.len();
            self.setup.players.push(SetupPlayer { id: seat, name: String::new(), color: Color::default_for(seat), editing_name: false });
        }
        self.setup.player_count = count;
    }

    /// Drops the game being recorded and the player selection.
    pub fn reset_game(&mut self)
        ensures
            final(self)@ == (AppModel { game: None, selected_user_id: None, ..old(self)@ }),
    {
        self.game = None;
        self.selected_user_id = None;
    }

    /// Starts a game from the setup: its map and the players of the first
    /// `player_count` seats, nothing fixed and no button used. The setup
    /// dialog closes.
    pub fn create_game_from_setup(&mut self)
        ensures
            final(self)@ == (AppModel { game: Some(game_from_setup(old(self)@.setup)), show_setup: false, ..old(self)@ }),
            old(self).wf() ==> final(self).wf(),
    {
        let n = if self.setup.player_count < self.setup.players.len() { self.setup.player_count } else { self.setup.players.len() };
        let mut players: Vec<Player> = Vec::new();
        let mut i: usize = 0;
        while i < n
            invariant
                i <= n <= self.setup.players@.len(),
                players@.len() == i,
                forall|k: int| 0 <= k < i ==> #[trigger] players@[k] == player_from_setup(self.setup.players@[k]),
            decreases n - i,
        {
            let p = &self.setup.players[i];
            players.push(Player {
                id: p.id,
                name: p.name.clone(),
                color: p.color,
                resolved_comms: false,
                resolved_lights: false,
                resolved_o2: false,
                done_button: false,
                editing_name: false,
            });
            i = i + 1;
        }
        self.game = Some(Game { area: self.setup.selected_area, players });
        self.show_setup = false;
        assert(self@.game->0.players =~= game_from_setup(old(self)@.setup).players);
    }

    /// Closes the setup dialog without starting a game.
    pub fn cancel_setup(&mut self)
        ensures
            final(self)@ == (AppModel { show_setup: false, ..old(self)@ }),
    {
        self.show_setup = false;
    }
}

/// Toggling a player's sabotage fix or name editing twice leaves the state as
/// it was.
pub proof fn toggle_twice_restores(m: AppModel, id: PlayerId, e: PlayerEdit)
    requires
        e is ToggleComms || e is ToggleLights || e is ToggleO2 || e is ToggleEditingName,
    ensures
        edit_game(edit_game(m, id, e), id, e) == m,
{
    match m.game {
        Some(g) => {
            if id < g.players.len() {
                let p = g.players[id as int];
                assert(edited(edited(p, e), e) == p);
                assert(edit_at(edit_at(g.players, id, e), id, e) =~= g.players);
            }
        },
        None => {},
    }
}

/// Toggling a setup player's name editing twice leaves the state as it was.
pub proof fn setup_editing_twice_restores(m: AppModel, id: PlayerId)
    ensures
        toggle_setup_editing(toggle_setup_editing(m, id), id) == m,
{
    if id < m.setup.players.len() {
        let p = m.setup.players[id as int];
        let once = m.setup.players.update(id as int, SetupPlayer { editing_name: !p.editing_name, ..p });
        assert(once.update(id as int, SetupPlayer { editing_name: !once[id as int].editing_name, ..once[id as int] }) =~= m.setup.players);
    }
}

/// A started game takes exactly the seats in use: as many players as the
/// player count says (fewer only when fewer seats were ever filled), never
/// more. Each player is the setup player of the same seat, with its
/// identifier, name and color, nothing fixed, button unused and no name being
/// edited; the game is on the chosen map.
pub proof fn started_game_takes_seats_in_use(s: SetupModel)
    ensures
        game_from_setup(s).players.len() <= s.player_count,
        game_from_setup(s).players.len() <= s.players.len(),
        game_from_setup(s).players.len() == s.player_count || game_from_setup(s).players.len() == s.players.len(),
        game_from_setup(s).area == s.selected_area,
        forall|i: int| 0 <= i < game_from_setup(s).players.len() ==> {
            let p = #[trigger] game_from_setup(s).players[i];
            &&& p.id == s.players[i].id
            &&& p.name == s.players[i].name
            &&& p.color == s.players[i].color
            &&& !p.resolved_comms && !p.resolved_lights && !p.resolved_o2
            &&& !p.done_button && !p.editing_name
        },
{
}

} // verus!
