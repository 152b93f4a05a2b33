use vstd::prelude::*;
use std::collections::HashMap;
use std::sync::Arc;
use crate::board::{board_closed, share_board, Board};
use crate::decimal::{
    capped, decimal_chars, decimal_string, digits_value, is_canonical_decimal,
    lemma_decimal_roundtrip, parse_canonical_decimal,
};
use crate::gamestate::Action;
use crate::history::{recorded_legs, Game};
use crate::invariants::{
    game_is_sound, game_sound, lemma_legal_action_keeps_sound, lemma_log_bound_kept,
    lemma_sound_can_list,
};
use crate::dto::{
    describes_game, lists_moves, result_view, GameStateDto, LegalMovesDto, NewGameRequest,
};
use crate::setup::{game_started, start_game};
use crate::rules::legal_actions;
use crate::rules_spec::{action_legal, apply_action_of, can_apply_action, can_list_actions};

verus! {

broadcast use vstd::std_specs::hash::group_hash_axioms;

/// The server's state: the board every game is played on, and the live
/// games. Games are numbered from 1 in the order they were stored, and are
/// named by the decimal notation of their number.
pub struct AppState {
    board: Arc<Board>,
    games: GameTable,
}

/// The stored games by number: game `k` is stored under key `k`, for `k`
/// from 1 to `count`.
struct GameTable {
    map: HashMap<u64, Game>,
    count: u64,
}

impl GameTable {
    /// The keys are exactly the numbers 1 to `count`.
    spec fn wf(&self) -> bool {
        forall|k: u64| #[trigger] self.map@.contains_key(k) <==> 1 <= k <= self.count
    }

    /// The games in the order of their numbers.
    spec fn seq(&self) -> Seq<Game> {
        Seq::new(self.count as nat, |i: int| self.map@[(i + 1) as u64])
    }

    /// No games.
    fn empty() -> (r: Self)
        ensures
            r.wf(),
            r.seq() == Seq::<Game>::empty(),
    {
        let r = GameTable { map: HashMap::new(), count: 0 };
        assert(r.seq() =~= Seq::<Game>::empty());
        r
    }

    /// Stores `game` under the next number, which is returned.
    fn push(&mut self, game: Game) -> (key: u64)
        requires
            old(self).wf(),
            old(self).count < u64::MAX,
        ensures
            final(self).wf(),
            key == old(self).count + 1,
            final(self).seq() == old(self).seq().push(game),
    {
        let key = self.count + 1;
        self.map.insert(key, game);
        self.count = key;
        assert(self.seq() =~= old(self).seq().push(game));
        key
    }

    /// The game stored under `key`.
    fn get(&self, key: u64) -> (r: &Game)
        requires
            self.wf(),
            1 <= key <= self.count,
        ensures
            *r == self.seq()[key - 1],
    {
        assert(self.map@.contains_key(key));
        self.map.get(&key).unwrap()
    }

    /// Takes out the game stored under `key`.
    fn take(&mut self, key: u64) -> (r: Game)
        requires
            old(self).wf(),
            1 <= key <= old(self).count,
        ensures
            final(self).count == old(self).count,
            final(self).map@ == old(self).map@.remove(key),
            r == old(self).seq()[key - 1],
    {
        assert(self.map@.contains_key(key));
        self.map.remove(&key).unwrap()
    }

    /// Puts `game` back under `key`, where `take` left a gap.
    fn put_back(&mut self, key: u64, game: Game, Ghost(before): Ghost<GameTable>)
        requires
            before.wf(),
            1 <= key <= before.count,
            old(self).count == before.count,
            old(self).map@ == before.map@.remove(key),
        ensures
            final(self).wf(),
            final(self).seq() == before.seq().update(key - 1, game),
    {
        self.map.insert(key, game);
        assert(self.seq() =~= before.seq().update(key - 1, game));
    }
}



/// The position of the game named `id` among `count` stored games.
pub open spec fn game_index(id: Seq<char>, count: nat) -> Option<int> {
    if is_canonical_decimal(id) && 1 <= digits_value(id) <= count {
        Some(digits_value(id) - 1)
    } else {
        None
    }
}

/// A game stored as the `n`-th is found under the name `insert_game` gave it.
pub proof fn lemma_stored_game_found(n: nat, count: nat)
    requires
        1 <= n <= count,
    ensures
        game_index(decimal_chars(n), count) == Some(n - 1),
{
    lemma_decimal_roundtrip(n);
}

/// Whether `action` is among `actions`.
fn contains_action(actions: &Vec<Action>, action: Action) -> (r: bool)
    ensures
        r == actions@.contains(action),
{
    let mut i: usize = 0;
    while i < actions.len()
        invariant
            i <= actions.len(),
            forall|k: int| 0 <= k < i ==> actions@[k] != action,
        decreases actions.len() - i,
    {
        if actions[i] == action {
            assert(actions@[i as int] == action);
            return true;
        }
        i = i + 1;
    }
    false
}

/// `after` and `r` are what submitting `action` to `before` may give: a
/// refusal that leaves the game as it was when the game is over or the move
/// is not legal for the player to move; otherwise the game advanced by
/// `Game::apply`.
pub open spec fn move_submitted(before: Game, action: Action, after: Game, r: Result<(), Seq<char>>) -> bool {
    if before.state.is_terminal {
        r == Err::<(), Seq<char>>(game_over_message()) && after == before
    } else if !action_legal(before.state@, action) {
        r == Err::<(), Seq<char>>(illegal_move_message()) && after == before
    } else {
        &&& r == Ok::<(), Seq<char>>(())
        &&& after.state@ == apply_action_of(before.state@, action)
        &&& after.history.mr_x_log@ == before.history.mr_x_log@ + recorded_legs(
            before.state@,
            action,
            before.reveal@,
            before.history.mr_x_log@.len(),
        )
        &&& after.reveal == before.reveal
    }
}

pub open spec fn game_over_message() -> Seq<char> {
    seq!['g', 'a', 'm', 'e', ' ', 'i', 's', ' ', 'a', 'l', 'r', 'e', 'a', 'd', 'y', ' ', 'o', 'v', 'e', 'r']
}

pub open spec fn illegal_move_message() -> Seq<char> {
    seq![
        'i', 'l', 'l', 'e', 'g', 'a', 'l', ' ', 'm', 'o', 'v', 'e', ' ', 'f', 'o', 'r', ' ', 't',
        'h', 'e', ' ', 'c', 'u', 'r', 'r', 'e', 'n', 't', ' ', 'p', 'l', 'a', 'y', 'e', 'r',
    ]
}

/// Submitting `action` to `game` runs without failing: in a live game the
/// player to move exists and their moves can be listed, and a legal action
/// can be applied and logged.
pub open spec fn move_playable(game: Game, action: Action) -> bool {
    !game.state.is_terminal ==> {
        &&& game.state@.well_indexed()
        &&& can_list_actions(game.state@)
        &&& action_legal(game.state@, action) ==> {
            &&& can_apply_action(game.state@, action)
            &&& game.history.mr_x_log@.len() + 2 <= usize::MAX
        }
    }
}

/// Any move can be submitted to a well-formed game.
pub proof fn lemma_sound_game_playable(game: Game, action: Action)
    requires
        game_sound(game),
    ensures
        move_playable(game, action),
{
    let g = game.state@;
    lemma_sound_can_list(g, action);
    if !g.is_terminal && action_legal(g, action) {
        lemma_legal_action_keeps_sound(g, action);
    }
}

/// Plays a submitted move: refused when the game is over, or when the
/// engine does not list the move as legal for the player to move; otherwise
/// the game advances as `Game::apply` says. A well-formed game stays
/// well-formed.
pub fn submit_move(game: &mut Game, action: Action) -> (r: Result<(), String>)
    requires
        move_playable(*old(game), action),
    ensures
        move_submitted(*old(game), action, *final(game), result_view(r)),
        game_sound(*old(game)) ==> game_sound(*final(game)),
{
    let ghost g = game.state@;
    if game.state.is_terminal {
        let e = "game is already over".to_owned();
        proof {
            reveal_strlit("game is already over");
            assert(e@ =~= game_over_message());
        }
        return Err(e);
    }
    let actions = legal_actions(&game.state);
    if !contains_action(&actions, action) {
        let e = "illegal move for the current player".to_owned();
        proof {
            reveal_strlit("illegal move for the current player");
            assert(e@ =~= illegal_move_message());
        }
        return Err(e);
    }
    proof {
        if game_sound(*game) {
            lemma_legal_action_keeps_sound(g, action);
            lemma_log_bound_kept(g, action, game.reveal@, game.history.mr_x_log@.len());
        }
    }
    game.apply(action);
    Ok(())
}

impl AppState {
    /// The board's edges all lead to stations, and the games are numbered
    /// from 1 without gaps.
    #[verifier::type_invariant]
    spec fn well_kept(&self) -> bool {
        &&& board_closed(self.board@)
        &&& self.games.wf()
    }

    /// The board every game is played on.
    pub fn board(&self) -> (r: &Arc<Board>)
        ensures
            *r == self.shared_board(),
    {
        &self.board
    }

    /// The stored games, in the order of their numbers.
    pub closed spec fn games(&self) -> Seq<Game> {
        self.games.seq()
    }

    /// The board every game is played on.
    pub closed spec fn shared_board(&self) -> Arc<Board> {
        self.board
    }

    /// A server state with no games, playing on `board`, whose edges must all
    /// lead to stations.
    pub fn new(board: Arc<Board>) -> (r: Self)
        requires
            board_closed(board@),
        ensures
            r.shared_board() == board,
            r.games() == Seq::<Game>::empty(),
    {
        Self { board, games: GameTable::empty() }
    }

    /// Stores `game` and returns its freshly allocated name.
    pub fn insert_game(&mut self, game: Game) -> (id: String)
        requires
            old(self).games().len() < u64::MAX,
        ensures
            final(self).shared_board() == old(self).shared_board(),
            final(self).games() == old(self).games().push(game),
            id@ == decimal_chars(old(self).games().len() + 1),
            game_index(id@, final(self).games().len()) == Some(old(self).games().len() as int),
    {
        proof {
            use_type_invariant(&*self);
        }
        let mut table = GameTable::empty();
        std::mem::swap(&mut table, &mut self.games);
        let n = table.push(game);
        self.games = table;
        let id = decimal_string(n);
        proof {
            lemma_stored_game_found(n as nat, self.games().len());
        }
        id
    }

    /// The number of the game named `id`, if there is one.
    fn find(&self, id: &str) -> (r: Option<u64>)
        ensures
            match r {
                Some(key) => 1 <= key <= self.games.count && game_index(id@, self.games().len())
                    == Some(key - 1),
                None => game_index(id@, self.games().len()) is None,
            },
    {
        match parse_canonical_decimal(id) {
            Some(v) => {
                if 1 <= v && v <= self.games.count as u128 {
                    assert(capped(digits_value(id@), u64::MAX as nat + 1) == digits_value(id@));
                    Some(v as u64)
                } else {
                    None
                }
            },
            None => None,
        }
    }

    /// Reads the game named `id` with `f`; `None` if there is no such game.
    pub fn with_game<R>(&self, id: &str, f: impl FnOnce(&Game) -> R) -> (r: Option<R>)
        requires
            game_index(id@, self.games().len()) matches Some(k) ==> f.requires((&self.games()[k],)),
        ensures
            match game_index(id@, self.games().len()) {
                Some(k) => r matches Some(x) && f.ensures((&self.games()[k],), x),
                None => r is None,
            },
    {
        proof {
            use_type_invariant(self);
        }
        match self.find(id) {
            Some(key) => Some(f(self.games.get(key))),
            None => None,
        }
    }
}

impl AppState {
    /// Plays `action` in the game named `id` as `submit_move` does; `None`
    /// if there is no such game. Only that game changes.
    pub fn apply_move(&mut self, id: &str, action: Action) -> (r: Option<Result<(), String>>)
        requires
            game_index(id@, old(self).games().len()) matches Some(k) ==> move_playable(
                old(self).games()[k],
                action,
            ),
        ensures
            final(self).shared_board() == old(self).shared_board(),
            final(self).games().len() == old(self).games().len(),
            match game_index(id@, old(self).games().len()) {
                None => r is None && final(self).games() == old(self).games(),
                Some(k) => {
                    &&& r matches Some(res)
                    &&& final(self).games() == old(self).games().update(k, final(self).games()[k])
                    &&& move_submitted(
                        old(self).games()[k],
                        action,
                        final(self).games()[k],
                        result_view(r.unwrap()),
                    )
                },
            },
    {
        proof {
            use_type_invariant(&*self);
        }
        match self.find(id) {
            None => None,
            Some(key) => {
                let mut table = GameTable::empty();
                std::mem::swap(&mut table, &mut self.games);
                let ghost before = table;
                let mut game = table.take(key);
                let r = submit_move(&mut game, action);
                let ghost after = game;
                table.put_back(key, game, Ghost(before));
                self.games = table;
                assert(self.games().len() == before.seq().len());
                assert(self.games()[key - 1] == after);
                assert(self.games() =~= before.seq().update(key - 1, self.games()[key - 1]));
                Some(r)
            },
        }
    }
}

impl AppState {
    /// The number of stored games.
    pub fn game_count(&self) -> (r: u64)
        ensures
            r == self.games().len(),
    {
        self.games.count
    }

    /// The full view of the game named `id`, as `GameStateDto::from_game`
    /// gives it; `None` if there is no such game.
    pub fn game_state_dto(&self, id: &str) -> (r: Option<GameStateDto>)
        ensures
            match game_index(id@, self.games().len()) {
                Some(k) => r matches Some(d) && describes_game(d, id@, self.games()[k]),
                None => r is None,
            },
    {
        proof {
            use_type_invariant(self);
        }
        match self.find(id) {
            Some(key) => Some(GameStateDto::from_game(id, self.games.get(key))),
            None => None,
        }
    }

    /// The legal moves in the game named `id`, as `LegalMovesDto::from_game`
    /// gives them; `None` if there is no such game.
    pub fn legal_moves_dto(&self, id: &str) -> (r: Option<LegalMovesDto>)
        requires
            game_index(id@, self.games().len()) matches Some(k) ==> self.games()[k].state@.well_indexed()
                && can_list_actions(self.games()[k].state@),
        ensures
            match game_index(id@, self.games().len()) {
                Some(k) => r matches Some(d) && lists_moves(d, self.games()[k]),
                None => r is None,
            },
    {
        proof {
            use_type_invariant(self);
        }
        match self.find(id) {
            Some(key) => Some(LegalMovesDto::from_game(self.games.get(key))),
            None => None,
        }
    }

    /// Whether the game named `id`, if there is one, is well-formed; a
    /// well-formed game can list its moves and take any submitted move
    /// (`lemma_sound_game_playable`).
    pub fn game_is_well_formed(&self, id: &str) -> (r: bool)
        ensures
            r == (game_index(id@, self.games().len()) matches Some(k) ==> game_sound(
                self.games()[k],
            )),
            r ==> (game_index(id@, self.games().len()) matches Some(k) ==> {
                &&& self.games()[k].state@.well_indexed()
                &&& can_list_actions(self.games()[k].state@)
                &&& forall|a: Action| #[trigger] move_playable(self.games()[k], a)
            }),
    {
        proof {
            use_type_invariant(self);
            if let Some(k) = game_index(id@, self.games().len()) {
                if game_sound(self.games()[k]) {
                    let game = self.games()[k];
                    lemma_sound_can_list(game.state@, Action::Pass);
                    assert forall|a: Action| #[trigger] move_playable(game, a) by {
                        lemma_sound_game_playable(game, a);
                    }
                }
            }
        }
        match self.find(id) {
            Some(key) => game_is_sound(self.games.get(key)),
            None => true,
        }
    }
}

impl AppState {
    /// Starts a game from `req` on the shared board, as `start_game` does,
    /// and stores it under a fresh name, which is returned. A refused
    /// request stores nothing and is answered with `start_game`'s message.
    pub fn create_game(&mut self, req: &NewGameRequest) -> (r: Result<String, String>)
        ensures
            final(self).shared_board() == old(self).shared_board(),
            old(self).games().len() >= u64::MAX ==> (r matches Err(e) && e@ == no_ids_message()
                && final(self).games() == old(self).games()),
            old(self).games().len() < u64::MAX ==> match r {
                Ok(id) => {
                    &&& final(self).games().len() == old(self).games().len() + 1
                    &&& final(self).games().drop_last() == old(self).games()
                    &&& game_started(
                        old(self).shared_board(),
                        *req,
                        Ok(final(self).games().last()),
                    )
                    &&& id@ == decimal_chars(final(self).games().len())
                    &&& game_index(id@, final(self).games().len()) == Some(
                        old(self).games().len() as int,
                    )
                },
                Err(e) => {
                    &&& final(self).games() == old(self).games()
                    &&& game_started(old(self).shared_board(), *req, Err(e@))
                },
            },
    {
        proof {
            use_type_invariant(&*self);
        }
        if self.games.count == u64::MAX {
            let e = "no game ids left".to_owned();
            proof {
                reveal_strlit("no game ids left");
            }
            return Err(e);
        }
        let board = share_board(&self.board);
        match start_game(&board, req) {
            Ok(game) => {
                let id = self.insert_game(game);
                assert(self.games().drop_last() =~= old(self).games());
                Ok(id)
            },
            Err(e) => Err(e),
        }
    }
}

/// The answer when every game name has been handed out.
pub open spec fn no_ids_message() -> Seq<char> {
    seq!['n', 'o', ' ', 'g', 'a', 'm', 'e', ' ', 'i', 'd', 's', ' ', 'l', 'e', 'f', 't']
}

impl AppState {
    /// Changes the game named `id` with `f`; `None` if there is no such game.
    pub fn with_game_mut<R>(&mut self, id: &str, f: impl FnOnce(&mut Game) -> R) -> (r: Option<R>)
        requires
            game_index(id@, old(self).games().len()) matches Some(k) ==> forall|x: &mut Game|
                *x == old(self).games()[k] ==> f.requires((x,)),
        ensures
            final(self).shared_board() == old(self).shared_board(),
            final(self).games().len() == old(self).games().len(),
            game_index(id@, old(self).games().len()) is None ==> r is None && final(self).games()
                == old(self).games(),
            game_index(id@, old(self).games().len()) matches Some(k) ==> r is Some,
            game_index(id@, old(self).games().len()) matches Some(k) ==> final(self).games()
                == old(self).games().update(k, final(self).games()[k]),
            game_index(id@, old(self).games().len()) matches Some(k) ==> exists|x: &mut Game|
                *x == old(self).games()[k] && *final(x) == final(self).games()[k]
                    && #[trigger] f.ensures((x,), r.unwrap()),
    {
        proof {
            use_type_invariant(&*self);
        }
        match self.find(id) {
            None => None,
            Some(key) => {
                let mut table = GameTable::empty();
                std::mem::swap(&mut table, &mut self.games);
                let ghost before_table = table;
                let mut game = table.take(key);
                let ghost before = game;
                assert(before == old(self).games()[key - 1]);
                let res = f(&mut game);
                assert(exists|x: &mut Game|
                    *x == before && *final(x) == game && #[trigger] f.ensures((x,), res));
                let ghost lent = choose|x: &mut Game|
                    *x == before && *final(x) == game && #[trigger] f.ensures((x,), res);
                let ghost after = game;
                table.put_back(key, game, Ghost(before_table));
                self.games = table;
                assert(self.games()[key - 1] == after);
                assert(self.games() =~= old(self).games().update(key - 1, after));
                let r = Some(res);
                assert(f.ensures((lent,), r.unwrap()));
                r
            },
        }
    }
}

} // verus!
