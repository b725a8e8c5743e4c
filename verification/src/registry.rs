//! The session registry: the mapping from short random game codes to
//! games, and within each game from player codes to per-player board
//! copies. The registry is owned by one logical owner (an actor or a lock
//! around it), which serializes every mutation of a game; the contracts
//! here describe each serialized step exactly.

use crate::board::{
    external_of, in_flood, same_layout, toggled, with_revealed, Board, Cell, CellState,
    ExternalCell,
};
use std::collections::HashMap;
use vstd::prelude::*;

verus! {

broadcast use vstd::std_specs::hash::group_hash_axioms;

/// Immutable per-game settings, fixed at creation.
#[derive(Clone, Copy, PartialEq, Eq, Structural, Debug)]
pub struct GameConfig {
    pub player_limit: usize,
    pub board_size: usize,
}

/// One player's seat in a game: an independent copy of the template
/// board, mutated only by that player's moves.
#[derive(Debug)]
pub struct WsPlayerGame {
    pub board: Board,
    pub name: String,
    pub start_time_secs: u64,
    pub finished_time_secs: Option<u64>,
}

/// One game: its settings, the template board generated at creation (the
/// source of truth for mine placement, never itself shown to a client),
/// and the players that joined.
#[derive(Debug)]
pub struct WsGame {
    config: GameConfig,
    // The common unsolved board
    board: Board,
    players: HashMap<u16, WsPlayerGame>,
}

/// The registry itself: all games, keyed by their 16-bit codes.
pub struct GameHandler {
    games: HashMap<u16, WsGame>,
}

/// A request to create a game.
pub struct CreateGame {
    pub board_size: usize,
    pub player_limit: usize,
}

/// A request to join a game.
pub struct JoinGame {
    game_code: u16,
    player_name: String,
}

/// Why a join was refused. Exhausting the bounded code-generation retry is
/// reported as its own case so that the caller can treat it as fatal, as
/// the retry policy demands.
#[derive(Clone, Copy, PartialEq, Eq, Structural, Debug)]
pub enum JoinGameError {
    GameNotFound,
    GameFull,
    CodesExhausted,
}

/// A request for a player's current snapshot.
pub struct GetGameState {
    pub game_code: u16,
    pub player_code: u16,
}

/// Why a snapshot request was refused.
#[derive(Clone, Copy, PartialEq, Eq, Structural, Debug)]
pub enum GetGameStateError {
    GameNotFound,
    PlayerNotFound,
}

/// The snapshot a client sees: the external view of the player's board,
/// the board side, and the player's times. `finished_time` is carried but
/// never populated by any engine path.
#[derive(Debug)]
pub struct GameStateUpdate {
    pub board_state: Vec<ExternalCell>,
    pub board_size: usize,
    pub start_time: Option<u64>,
    pub finished_time: Option<u64>,
}

/// One move of one player.
#[derive(Clone, Copy, PartialEq, Eq, Structural, Debug)]
pub enum PlayerAction {
    Flag { index: usize },
    Reveal { index: usize },
}

/// Why a move was refused.
#[derive(Clone, Copy, PartialEq, Eq, Structural, Debug)]
pub enum MoveError {
    NoSuchGame,
    NoSuchPlayer,
    InvalidMove,
}

/// A move of one player.
pub struct PlayerMove {
    pub game_code: u16,
    pub player_code: u16,
    pub action: PlayerAction,
}

/// The action applies: flagging wants an on-board, non-revealed cell;
/// revealing wants an on-board cell.
pub open spec fn move_applies(cells: Seq<Cell>, action: PlayerAction) -> bool {
    match action {
        PlayerAction::Flag { index } => index < cells.len() && cells[index as int].state
            != CellState::Revealed,
        PlayerAction::Reveal { index } => index < cells.len(),
    }
}

/// The board after one move: a flag toggle at the index, or the flood
/// reveal of the index's region; an inapplicable move changes nothing.
pub open spec fn cells_after_move(cells: Seq<Cell>, size: int, action: PlayerAction) -> Seq<
    Cell,
> {
    if !move_applies(cells, action) {
        cells
    } else {
        match action {
            PlayerAction::Flag { index } => cells.update(
                index as int,
                toggled(cells[index as int]),
            ),
            PlayerAction::Reveal { index } => Seq::new(
                cells.len(),
                |j: int|
                    if in_flood(cells, size, index as int, j) {
                        with_revealed(cells[j])
                    } else {
                        cells[j]
                    },
            ),
        }
    }
}

/// One player's seat is sound against the game's template: a well-formed
/// board of the template's side with the template's exact mine layout.
pub open spec fn player_wf(s: WsPlayerGame, template: Board) -> bool {
    &&& s.board.wf()
    &&& s.board.spec_size() == template.spec_size()
    &&& same_layout(s.board@, template@)
}

/// The players mapping moved by exactly one move of player `pc`: every
/// other seat untouched, and `pc`'s board moved by its own action alone.
pub open spec fn player_move_step(
    before: Map<u16, WsPlayerGame>,
    after: Map<u16, WsPlayerGame>,
    pc: u16,
    size: int,
    action: PlayerAction,
) -> bool {
    &&& before.contains_key(pc)
    &&& after.dom() == before.dom()
    &&& forall|p: u16|
        p != pc && before.contains_key(p) ==> #[trigger] after[p] == before[p]
    &&& after[pc].board@ == cells_after_move(before[pc].board@, size, action)
    &&& after[pc].board.spec_size() == before[pc].board.spec_size()
    &&& after[pc].name == before[pc].name
    &&& after[pc].start_time_secs == before[pc].start_time_secs
    &&& after[pc].finished_time_secs == before[pc].finished_time_secs
}

impl WsGame {
    /// The game's settings.
    pub closed spec fn spec_config(&self) -> GameConfig {
        self.config
    }

    /// The template board.
    pub closed spec fn spec_board(&self) -> Board {
        self.board
    }

    /// The players, as a map from player code to seat.
    pub closed spec fn spec_players(&self) -> Map<u16, WsPlayerGame> {
        self.players@
    }

    /// A sound game: a well-formed template of the configured side, and
    /// every seat a well-formed copy of the template's layout.
    pub open spec fn wf(&self) -> bool {
        &&& self.spec_board().wf()
        &&& self.spec_board().spec_size() == self.spec_config().board_size
        &&& forall|pc: u16|
            self.spec_players().contains_key(pc) ==> player_wf(
                #[trigger] self.spec_players()[pc],
                self.spec_board(),
            )
    }

    /// A fresh game: one newly generated template board, no players yet.
    pub fn new(config: GameConfig) -> (g: WsGame)
        requires
            (config.board_size as int) * (config.board_size as int) <= usize::MAX,
        ensures
            g.wf(),
            g.spec_config() == config,
            g.spec_players() == Map::<u16, WsPlayerGame>::empty(),
            forall|i: int|
                0 <= i < g.spec_board()@.len() ==> (#[trigger] g.spec_board()@[i]).state
                    == CellState::Unrevealed,
    {
        let board = Board::generate(config.board_size);
        let players: HashMap<u16, WsPlayerGame> = HashMap::new();
        WsGame { board, players, config }
    }

    /// The game's settings (for callers outside the registry).
    pub fn config(&self) -> (c: &GameConfig)
        ensures
            *c == self.spec_config(),
    {
        &self.config
    }

    /// How many players have joined.
    pub fn player_count(&self) -> (n: usize)
        ensures
            n == self.spec_players().len(),
    {
        self.players.len()
    }
}

impl GameHandler {
    /// The games, as a map from game code to game.
    pub closed spec fn spec_games(&self) -> Map<u16, WsGame> {
        self.games@
    }

    /// A sound registry: every game sound.
    pub open spec fn wf(&self) -> bool {
        forall|c: u16|
            self.spec_games().contains_key(c) ==> (#[trigger] self.spec_games()[c]).wf()
    }

    /// How many games exist.
    pub fn game_count(&self) -> (n: usize)
        ensures
            n == self.spec_games().len(),
    {
        self.games.len()
    }

    /// The game under `code`, if any.
    pub fn get_game(&self, code: u16) -> (r: Option<&WsGame>)
        ensures
            match r {
                Some(g) => self.spec_games().contains_key(code) && *g == self.spec_games()[code],
                None => !self.spec_games().contains_key(code),
            },
    {
        self.games.get(&code)
    }
}

impl Default for GameHandler {
    /// An empty registry.
    fn default() -> (res: Self)
        ensures
            res.wf(),
            res.spec_games() == Map::<u16, WsGame>::empty(),
    {
        Self { games: HashMap::new() }
    }
}

/// Draw up to 255 random 16-bit codes and hand back the first that is not
/// yet a key of the mapping; `None` once the bounded retry is exhausted
/// (a fatal condition for the caller, not a normal path). A returned code
/// is never already present in the mapping, and an empty mapping cannot
/// defeat any draw, so there the first draw already succeeds.
fn generate_code<V>(map: &HashMap<u16, V>) -> (r: Option<u16>)
    ensures
        match r {
            Some(code) => !map@.contains_key(code),
            None => true,
        },
        map@.len() == 0 ==> r is Some,
{
    let mut tries: usize = 0;
    while tries < 0xff
        invariant
            tries <= 0xff,
            tries > 0 ==> map@.len() > 0,
        decreases 0xff - tries,
    {
        let code = crate::rng::random_below(0xffff) as u16;
        if !map.contains_key(&code) {
            return Some(code);
        }
        proof {
            if map@.len() == 0 {
                map@.dom().lemma_len0_is_empty();
            }
        }
        tries += 1;
    }
    None
}

impl GameHandler {
    /// Create a game: draw a fresh unique game code, generate one template
    /// board, store the new game under the code and return the code. `Err`
    /// only when the bounded code-generation retry is exhausted, in which
    /// case nothing changes; on an empty registry no draw can collide, so
    /// creation succeeds.
    pub fn create_game(&mut self, msg: CreateGame) -> (r: Result<u16, ()>)
        requires
            old(self).wf(),
            (msg.board_size as int) * (msg.board_size as int) <= usize::MAX,
        ensures
            final(self).wf(),
            match r {
                Ok(code) => {
                    &&& !old(self).spec_games().contains_key(code)
                    &&& final(self).spec_games().dom() == old(self).spec_games().dom().insert(
                        code,
                    )
                    &&& forall|c: u16|
                        c != code && old(self).spec_games().contains_key(c)
                            ==> #[trigger] final(self).spec_games()[c] == old(
                            self,
                        ).spec_games()[c]
                    &&& final(self).spec_games()[code].spec_config() == (GameConfig {
                        board_size: msg.board_size,
                        player_limit: msg.player_limit,
                    })
                    &&& final(self).spec_games()[code].spec_players() == Map::<
                        u16,
                        WsPlayerGame,
                    >::empty()
                    &&& forall|i: int|
                        0 <= i < final(self).spec_games()[code].spec_board()@.len()
                            ==> (#[trigger] final(self).spec_games()[code].spec_board()@[i]).state
                            == CellState::Unrevealed
                },
                Err(()) => final(self).spec_games() == old(self).spec_games(),
            },
            old(self).spec_games().len() == 0 ==> r is Ok,
    {
        let code = match generate_code(&self.games) {
            Some(code) => code,
            None => {
                return Err(());
            },
        };
        let new_game = WsGame::new(
            GameConfig { board_size: msg.board_size, player_limit: msg.player_limit },
        );
        self.games.insert(code, new_game);
        proof {
            assert(self.spec_games().dom() =~= old(self).spec_games().dom().insert(code));
        }
        Ok(code)
    }
}

impl JoinGame {
    /// The code of the game to join.
    pub closed spec fn spec_game_code(&self) -> u16 {
        self.game_code
    }

    /// The joining player's display name.
    pub closed spec fn spec_player_name(&self) -> Seq<char> {
        self.player_name@
    }

    pub fn new(game_code: u16, player_name: String) -> (m: JoinGame)
        ensures
            m.spec_game_code() == game_code,
            m.spec_player_name() == player_name@,
    {
        JoinGame { game_code, player_name }
    }
}

impl GameHandler {
    /// Join a game: refused when the code resolves to no game or the game
    /// is already full (in which case no player is inserted and nothing
    /// changes); otherwise a fresh unique player code is drawn, the
    /// template board is cloned into a new seat, and the code returned.
    /// Joining a game with room and no players yet always succeeds: no
    /// draw can collide with an empty seat map.
    pub fn join_game(&mut self, msg: JoinGame) -> (r: Result<u16, JoinGameError>)
        requires
            old(self).wf(),
        ensures
            final(self).wf(),
            match r {
                Ok(pc) => {
                    let gc = msg.spec_game_code();
                    let g0 = old(self).spec_games()[gc];
                    let g1 = final(self).spec_games()[gc];
                    &&& old(self).spec_games().contains_key(gc)
                    &&& g0.spec_players().len() < g0.spec_config().player_limit
                    &&& !g0.spec_players().contains_key(pc)
                    &&& final(self).spec_games().dom() == old(self).spec_games().dom()
                    &&& forall|c: u16|
                        c != gc && old(self).spec_games().contains_key(c)
                            ==> #[trigger] final(self).spec_games()[c] == old(
                            self,
                        ).spec_games()[c]
                    &&& g1.spec_config() == g0.spec_config()
                    &&& g1.spec_board() == g0.spec_board()
                    &&& g1.spec_players().dom() == g0.spec_players().dom().insert(pc)
                    &&& forall|p: u16|
                        p != pc && g0.spec_players().contains_key(p)
                            ==> #[trigger] g1.spec_players()[p] == g0.spec_players()[p]
                    &&& g1.spec_players()[pc].board@ == g0.spec_board()@
                    &&& g1.spec_players()[pc].name@ == msg.spec_player_name()
                    &&& g1.spec_players()[pc].finished_time_secs == None::<u64>
                },
                Err(e) => {
                    let gc = msg.spec_game_code();
                    &&& final(self).spec_games() == old(self).spec_games()
                    &&& (e == JoinGameError::GameNotFound <==> !old(
                        self,
                    ).spec_games().contains_key(gc))
                    &&& (e == JoinGameError::GameFull ==> old(self).spec_games()[gc].spec_players().len()
                        >= old(self).spec_games()[gc].spec_config().player_limit)
                    &&& (e == JoinGameError::CodesExhausted ==> old(
                        self,
                    ).spec_games()[gc].spec_players().len() < old(
                        self,
                    ).spec_games()[gc].spec_config().player_limit)
                },
            },
            old(self).spec_games().contains_key(msg.spec_game_code()) && old(
                self,
            ).spec_games()[msg.spec_game_code()].spec_players().len() == 0 && old(
                self,
            ).spec_games()[msg.spec_game_code()].spec_config().player_limit > 0 ==> r is Ok,
    {
        let game_code = msg.game_code;
        let mut game = match self.games.remove(&game_code) {
            None => {
                proof {
                    assert(self.spec_games() =~= old(self).spec_games());
                }
                return Err(JoinGameError::GameNotFound);
            },
            Some(g) => g,
        };
        if game.players.len() >= game.config.player_limit {
            self.games.insert(game_code, game);
            proof {
                assert(self.spec_games() =~= old(self).spec_games());
            }
            return Err(JoinGameError::GameFull);
        }
        let player_code = match generate_code(&game.players) {
            None => {
                self.games.insert(game_code, game);
                proof {
                    assert(self.spec_games() =~= old(self).spec_games());
                }
                return Err(JoinGameError::CodesExhausted);
            },
            Some(pc) => pc,
        };
        let start_time_secs = match crate::clock::now_unix_secs() {
            Some(s) => s,
            None => 0,
        };
        let session = WsPlayerGame {
            board: game.board.clone(),
            name: msg.player_name,
            start_time_secs,
            finished_time_secs: None,
        };
        game.players.insert(player_code, session);
        self.games.insert(game_code, game);
        proof {
            let gc = game_code;
            let g0 = old(self).spec_games()[gc];
            let g1 = self.spec_games()[gc];
            assert(self.spec_games().dom() =~= old(self).spec_games().dom());
            assert(g1.spec_players().dom() =~= g0.spec_players().dom().insert(player_code));
            assert(same_layout(g0.spec_board()@, g0.spec_board()@));
            assert(self.wf());
        }
        Ok(player_code)
    }

    /// Apply one player's move: dispatch a flag toggle or a reveal to that
    /// player's own board. Unresolvable codes and inapplicable moves are
    /// refused and change nothing; every other seat and every other game
    /// is untouched either way.
    pub fn apply_move(&mut self, msg: PlayerMove) -> (r: Result<(), MoveError>)
        requires
            old(self).wf(),
        ensures
            final(self).wf(),
            match r {
                Ok(()) => {
                    let gc = msg.game_code;
                    let pc = msg.player_code;
                    let g0 = old(self).spec_games()[gc];
                    let g1 = final(self).spec_games()[gc];
                    &&& old(self).spec_games().contains_key(gc)
                    &&& g0.spec_players().contains_key(pc)
                    &&& move_applies(g0.spec_players()[pc].board@, msg.action)
                    &&& final(self).spec_games().dom() == old(self).spec_games().dom()
                    &&& forall|c: u16|
                        c != gc && old(self).spec_games().contains_key(c)
                            ==> #[trigger] final(self).spec_games()[c] == old(
                            self,
                        ).spec_games()[c]
                    &&& g1.spec_config() == g0.spec_config()
                    &&& g1.spec_board() == g0.spec_board()
                    &&& player_move_step(
                        g0.spec_players(),
                        g1.spec_players(),
                        pc,
                        g0.spec_config().board_size as int,
                        msg.action,
                    )
                },
                Err(e) => {
                    let gc = msg.game_code;
                    let pc = msg.player_code;
                    &&& final(self).spec_games() == old(self).spec_games()
                    &&& (e == MoveError::NoSuchGame <==> !old(self).spec_games().contains_key(gc))
                    &&& (e == MoveError::NoSuchPlayer <==> old(self).spec_games().contains_key(gc)
                        && !old(self).spec_games()[gc].spec_players().contains_key(pc))
                    &&& (e == MoveError::InvalidMove <==> old(self).spec_games().contains_key(gc)
                        && old(self).spec_games()[gc].spec_players().contains_key(pc)
                        && !move_applies(
                        old(self).spec_games()[gc].spec_players()[pc].board@,
                        msg.action,
                    ))
                },
            },
    {
        let game_code = msg.game_code;
        let player_code = msg.player_code;
        let mut game = match self.games.remove(&game_code) {
            None => {
                proof {
                    assert(self.spec_games() =~= old(self).spec_games());
                }
                return Err(MoveError::NoSuchGame);
            },
            Some(g) => g,
        };
        if !game.players.contains_key(&player_code) {
            self.games.insert(game_code, game);
            proof {
                assert(self.spec_games() =~= old(self).spec_games());
            }
            return Err(MoveError::NoSuchPlayer);
        }
        let applies = match msg.action {
            PlayerAction::Flag { index } => match game.players.get(&player_code).unwrap().board.get(
                index,
            ) {
                Some(c) => c.state != CellState::Revealed,
                None => false,
            },
            PlayerAction::Reveal { index } => game.players.get(&player_code).unwrap().board.get(
                index,
            ).is_some(),
        };
        if !applies {
            self.games.insert(game_code, game);
            proof {
                assert(self.spec_games() =~= old(self).spec_games());
            }
            return Err(MoveError::InvalidMove);
        }
        let mut session = game.players.remove(&player_code).unwrap();
        let ghost board0 = session.board@;
        let ghost g0 = old(self).spec_games()[game_code];
        let ghost sz = g0.spec_config().board_size as int;
        let res = match msg.action {
            PlayerAction::Flag { index } => session.board.toggle_flag(index),
            PlayerAction::Reveal { index } => session.board.reveal_cell(index),
        };
        proof {
            assert(res is Ok);
            assert(session.board@ =~= cells_after_move(board0, sz, msg.action));
            assert(same_layout(session.board@, g0.spec_board()@)) by {
                assert(same_layout(board0, g0.spec_board()@));
            }
        }
        game.players.insert(player_code, session);
        self.games.insert(game_code, game);
        proof {
            let g1 = self.spec_games()[game_code];
            assert(self.spec_games().dom() =~= old(self).spec_games().dom());
            assert(g1.spec_players().dom() =~= g0.spec_players().dom());
            assert(self.wf());
        }
        Ok(())
    }

    /// A snapshot for one player: the external view of that player's
    /// board (never leaking unrevealed types), the board side and the
    /// player's start time; `finished_time` is never populated.
    pub fn get_game_state(&self, msg: GetGameState) -> (r: Result<
        GameStateUpdate,
        GetGameStateError,
    >)
        requires
            self.wf(),
        ensures
            match r {
                Ok(u) => {
                    let g = self.spec_games()[msg.game_code];
                    let s = g.spec_players()[msg.player_code];
                    &&& self.spec_games().contains_key(msg.game_code)
                    &&& g.spec_players().contains_key(msg.player_code)
                    &&& u.board_state@.len() == s.board@.len()
                    &&& forall|i: int|
                        0 <= i < s.board@.len() ==> u.board_state@[i] == external_of(
                            s.board@,
                            s.board.spec_size() as int,
                            i,
                        )
                    &&& u.board_size == s.board.spec_size()
                    &&& u.start_time == Some(s.start_time_secs)
                    &&& u.finished_time == None::<u64>
                },
                Err(e) => {
                    &&& (e == GetGameStateError::GameNotFound <==> !self.spec_games().contains_key(
                        msg.game_code,
                    ))
                    &&& (e == GetGameStateError::PlayerNotFound <==> self.spec_games().contains_key(
                        msg.game_code,
                    ) && !self.spec_games()[msg.game_code].spec_players().contains_key(
                        msg.player_code,
                    ))
                },
            },
    {
        let game = match self.games.get(&msg.game_code) {
            None => {
                return Err(GetGameStateError::GameNotFound);
            },
            Some(g) => g,
        };
        let player_game = match game.players.get(&msg.player_code) {
            None => {
                return Err(GetGameStateError::PlayerNotFound);
            },
            Some(s) => s,
        };
        Ok(
            GameStateUpdate {
                board_state: player_game.board.get_external_state(),
                board_size: player_game.board.size(),
                start_time: Some(player_game.start_time_secs),
                finished_time: None,
            },
        )
    }
}

/// Serialized moves of two different players never touch each other's
/// seat: whatever order the registry's owner picks for the two steps, each
/// player's final board is exactly its own move applied to its own
/// earlier board.
pub proof fn lemma_moves_independent(
    players0: Map<u16, WsPlayerGame>,
    players1: Map<u16, WsPlayerGame>,
    players2: Map<u16, WsPlayerGame>,
    p1: u16,
    p2: u16,
    size: int,
    a1: PlayerAction,
    a2: PlayerAction,
)
    requires
        p1 != p2,
        player_move_step(players0, players1, p1, size, a1),
        player_move_step(players1, players2, p2, size, a2),
    ensures
        players2[p1].board@ == cells_after_move(players0[p1].board@, size, a1),
        players2[p2].board@ == cells_after_move(players0[p2].board@, size, a2),
{
    assert(players1[p2] == players0[p2]);
    assert(players2[p1] == players1[p1]);
}

} // verus!
