//! The game session of one room.

use crate::model::{
    credited, distinct_keys, kind_name, listed, place_of, score_of, Board, ContentView, GameView,
    PlayerInputView, PlayerView, StorybookView, Table, MAX_PLAYERS, MIN_PLAYERS,
};
use crate::ranking::{is_ranking, ranked_entries};
use crate::utils::{lemma_rotated_map_values, rotate_map};
use std::collections::HashMap;
use vstd::prelude::*;

verus! {

broadcast use vstd::std_specs::hash::group_hash_axioms;

/// A player on the roster of a room.
#[derive(Debug)]
pub struct Player {
    pub id: String,
    pub pub_key: String,
    pub name: String,
    pub is_host: bool,
    pub avatar: String,
}

/// What a player brings along when joining.
#[derive(Debug)]
pub struct PlayerInput {
    pub pub_key: String,
    pub name: String,
    pub avatar: String,
}

/// What one slot hands in for the round in progress.
#[derive(Debug)]
pub struct Submission {
    pub player_idx: u8,
    pub content: String,
}

/// A piece of content together with its kind, `story` or `image`, and its
/// position in the list it was taken from.
#[derive(Debug)]
pub struct Content {
    pub kind: String,
    pub data: String,
    pub idx: u8,
}

/// The replay of one slot's entries over the completed rounds.
#[derive(Debug)]
pub struct AllImgOrPrompt {
    pub content: Vec<Content>,
    pub round: u8,
}

/// A vote: slot `player_idx` likes the drawing of slot `like_idx`.
#[derive(Debug)]
pub struct LikeDrawInput {
    pub player_idx: u8,
    pub like_idx: u8,
}

/// Why an operation on a room was refused. A refused operation changes
/// nothing.
#[derive(Debug, Clone, Copy, PartialEq, Eq, Structural)]
pub enum GameError {
    RoomNotFound,
    GameFull,
    PlayerExists,
    NotEnoughPlayers,
    PlayerDoesNotExist,
    GameNotStarted,
    GameStarted,
    InvalidRound,
}

impl View for Player {
    type V = PlayerView;

    open spec fn view(&self) -> PlayerView {
        PlayerView {
            id: self.id@,
            pub_key: self.pub_key@,
            name: self.name@,
            is_host: self.is_host,
            avatar: self.avatar@,
        }
    }
}

impl Clone for Player {
    fn clone(&self) -> (copy: Player)
        ensures
            copy == *self,
    {
        Player {
            id: self.id.clone(),
            pub_key: self.pub_key.clone(),
            name: self.name.clone(),
            is_host: self.is_host,
            avatar: self.avatar.clone(),
        }
    }
}

impl View for PlayerInput {
    type V = PlayerInputView;

    open spec fn view(&self) -> PlayerInputView {
        PlayerInputView { pub_key: self.pub_key@, name: self.name@, avatar: self.avatar@ }
    }
}

impl View for Content {
    type V = ContentView;

    open spec fn view(&self) -> ContentView {
        ContentView { kind: self.kind@, data: self.data@, idx: self.idx }
    }
}

impl View for AllImgOrPrompt {
    type V = StorybookView;

    open spec fn view(&self) -> StorybookView {
        StorybookView { content: self.content@.map_values(|c: Content| c@), round: self.round }
    }
}

/// The text that describes `e`.
pub open spec fn error_text(e: GameError) -> Seq<char> {
    match e {
        GameError::RoomNotFound => "Room not found"@,
        GameError::GameFull => "Game is full"@,
        GameError::PlayerExists => "Player already exists"@,
        GameError::NotEnoughPlayers => "Not enough players"@,
        GameError::PlayerDoesNotExist => "Player does not exist"@,
        GameError::GameNotStarted => "Game has not started"@,
        GameError::GameStarted => "Game has already started"@,
        GameError::InvalidRound => "Invalid round"@,
    }
}

impl GameError {
    /// The text that describes this error.
    pub fn message(&self) -> (text: String)
        ensures
            text@ == error_text(*self),
    {
        match self {
            GameError::RoomNotFound => "Room not found".to_owned(),
            GameError::GameFull => "Game is full".to_owned(),
            GameError::PlayerExists => "Player already exists".to_owned(),
            GameError::NotEnoughPlayers => "Not enough players".to_owned(),
            GameError::PlayerDoesNotExist => "Player does not exist".to_owned(),
            GameError::GameNotStarted => "Game has not started".to_owned(),
            GameError::GameStarted => "Game has already started".to_owned(),
            GameError::InvalidRound => "Invalid round".to_owned(),
        }
    }
}

/// A submission table as the model sees it.
pub open spec fn table_view(table: Map<u8, String>) -> Table {
    table.map_values(|content: String| content@)
}

/// A roster as the model sees it.
pub open spec fn roster_view(players: Seq<Player>) -> Seq<PlayerView> {
    players.map_values(|p: Player| p@)
}

/// A leaderboard as the model sees it.
pub open spec fn board_view(board: Seq<(String, i32)>) -> Board {
    board.map_values(|entry: (String, i32)| (entry.0@, entry.1 as int))
}

/// Whether `board` has an entry for `key`.
fn has_entry(board: &Vec<(String, i32)>, key: &String) -> (found: bool)
    ensures
        found == listed(board_view(board@), key@),
{
    let mut i: usize = 0;
    while i < board.len()
        invariant
            i <= board.len(),
            forall|j: int| 0 <= j < i ==> board_view(board@)[j].0 != key@,
        decreases board.len() - i,
    {
        if board[i].0 == *key {
            assert(board_view(board@)[i as int].0 == key@);
            return true;
        }
        i = i + 1;
    }
    false
}

/// The position of the entry for `key`.
fn entry_index(board: &Vec<(String, i32)>, key: &String) -> (at: usize)
    requires
        distinct_keys(board_view(board@)),
        listed(board_view(board@), key@),
    ensures
        at < board.len(),
        at == place_of(board_view(board@), key@),
{
    let ghost place = place_of(board_view(board@), key@);
    let mut i: usize = 0;
    while i < board.len()
        invariant
            i <= place < board.len(),
            board_view(board@)[place].0 == key@,
            distinct_keys(board_view(board@)),
        decreases board.len() - i,
    {
        if board[i].0 == *key {
            assert(board_view(board@)[i as int].0 == key@);
            return i;
        }
        i = i + 1;
    }
    i
}

/// The name of the content kind that belongs to position `i`.
fn kind_of(i: usize) -> (kind: String)
    ensures
        kind@ == kind_name(i as nat),
{
    if i % 2 == 0 {
        "story".to_owned()
    } else {
        "image".to_owned()
    }
}

/// The session of one room: roster, rounds, assignments and leaderboard.
///
/// The fields are private, so every session that exists was built by the
/// operations below and satisfies [`GameView::inv`].
#[derive(Debug)]
pub struct GameState {
    players: Vec<Player>,
    round: u8,
    game_started: bool,
    round_imgs_or_prompts: Vec<HashMap<u8, String>>,
    prev_round_imgs_or_prompts: Option<HashMap<u8, String>>,
    leader_board: Vec<(String, i32)>,
}

impl View for GameState {
    type V = GameView;

    closed spec fn view(&self) -> GameView {
        GameView {
            players: roster_view(self.players@),
            round: self.round as nat,
            started: self.game_started,
            tables: self.round_imgs_or_prompts@.map_values(|t: HashMap<u8, String>| table_view(t@)),
            assigned: match self.prev_round_imgs_or_prompts {
                None => None,
                Some(t) => Some(table_view(t@)),
            },
            board: board_view(self.leader_board@),
        }
    }
}

impl Default for GameState {
    fn default() -> (game: GameState)
        ensures
            game@ == GameView::lobby(),
    {
        GameState::new()
    }
}

impl GameState {
    #[verifier::type_invariant]
    spec fn well_formed(&self) -> bool {
        self@.inv()
    }

    /// An empty lobby.
    pub fn new() -> (game: GameState)
        ensures
            game@ == GameView::lobby(),
    {
        let game = GameState {
            players: Vec::new(),
            round: 0,
            game_started: false,
            round_imgs_or_prompts: Vec::new(),
            prev_round_imgs_or_prompts: None,
            leader_board: Vec::new(),
        };
        assert(game@.players =~= Seq::empty());
        assert(game@.tables =~= Seq::empty());
        assert(game@.board =~= Seq::empty());
        game
    }

    /// The roster, in join order.
    pub fn players(&self) -> (roster: &Vec<Player>)
        ensures
            roster_view(roster@) == self@.players,
    {
        &self.players
    }

    /// The number of rounds completed so far.
    pub fn round(&self) -> (round: u8)
        ensures
            round == self@.round,
    {
        self.round
    }

    /// Whether the game has been started.
    pub fn game_started(&self) -> (started: bool)
        ensures
            started == self@.started,
    {
        self.game_started
    }

    /// The score recorded for `pub_key`, if the key has ever joined.
    pub fn score(&self, pub_key: &String) -> (score: Option<i32>)
        ensures
            match score {
                Some(points) => listed(self@.board, pub_key@) && points == score_of(
                    self@.board,
                    pub_key@,
                ),
                None => !listed(self@.board, pub_key@),
            },
    {
        proof {
            use_type_invariant(self);
        }
        if has_entry(&self.leader_board, pub_key) {
            let at = entry_index(&self.leader_board, pub_key);
            Some(self.leader_board[at].1)
        } else {
            None
        }
    }

    /// Moves the session out, leaving an empty lobby in its place.
    fn take(&mut self) -> (taken: GameState)
        ensures
            taken == *old(self),
    {
        let mut taken = GameState::new();
        std::mem::swap(self, &mut taken);
        taken
    }

    /// Adds a player to the lobby and returns the roster. The first player to
    /// join is the host; a public key that joins for the first time enters the
    /// leaderboard with score 0, one that has joined before keeps its score.
    ///
    /// Refused with `GameStarted` once the game has started, else with
    /// `GameFull` when the roster holds eight players.
    pub fn add_player(&mut self, player: PlayerInput, socket_id: String) -> (r: Result<
        Vec<Player>,
        GameError,
    >)
        ensures
            match old(self)@.join(player@, socket_id@) {
                Ok(next) => {
                    &&& final(self)@ == next
                    &&& r matches Ok(roster)
                    &&& roster_view(roster@) == next.players
                },
                Err(e) => r == Err::<Vec<Player>, GameError>(e) && final(self)@ == old(self)@,
            },
            final(self)@.inv(),
    {
        proof {
            use_type_invariant(&*self);
        }
        if self.game_started {
            return Err(GameError::GameStarted);
        }
        if self.players.len() >= MAX_PLAYERS {
            return Err(GameError::GameFull);
        }
        let ghost pre = self@;
        let ghost next = pre.join(player@, socket_id@)->Ok_0;
        let GameState {
            mut players,
            round,
            game_started,
            round_imgs_or_prompts,
            prev_round_imgs_or_prompts,
            mut leader_board,
        } = self.take();
        if !has_entry(&leader_board, &player.pub_key) {
            leader_board.push((player.pub_key.clone(), 0));
        }
        assert(board_view(leader_board@) =~= next.board);
        let is_host = players.len() == 0;
        players.push(
            Player {
                id: socket_id,
                pub_key: player.pub_key,
                name: player.name,
                is_host,
                avatar: player.avatar,
            },
        );
        let roster = players.clone();
        proof {
            assert(roster_view(players@) =~= next.players);
            assert(roster@ =~= players@);
            pre.lemma_join_keeps_inv(player@, socket_id@);
        }
        *self = GameState {
            players,
            round,
            game_started,
            round_imgs_or_prompts,
            prev_round_imgs_or_prompts,
            leader_board,
        };
        Ok(roster)
    }

    /// Starts the game.
    ///
    /// Refused with `GameStarted` when the game has started already, else with
    /// `NotEnoughPlayers` when the roster holds fewer than three players.
    pub fn start_game(&mut self) -> (r: Result<(), GameError>)
        ensures
            match old(self)@.start() {
                Ok(next) => r is Ok && final(self)@ == next,
                Err(e) => r == Err::<(), GameError>(e) && final(self)@ == old(self)@,
            },
            final(self)@.inv(),
    {
        proof {
            use_type_invariant(&*self);
        }
        if self.game_started {
            return Err(GameError::GameStarted);
        }
        if self.players.len() < MIN_PLAYERS {
            return Err(GameError::NotEnoughPlayers);
        }
        self.game_started = true;
        Ok(())
    }

    /// Records a submission for the round in progress; a later submission of
    /// the same slot replaces the earlier one. When every slot has submitted,
    /// the round is complete: the round counter advances, the table is rotated
    /// into the next round's assignments, and the result is `true`.
    ///
    /// Refused with `PlayerDoesNotExist` when the roster has no such slot, else
    /// with `InvalidRound` when every round has been played.
    pub fn submit_img_or_prompt(&mut self, submission: Submission) -> (r: Result<bool, GameError>)
        ensures
            match old(self)@.submit(submission.player_idx, submission.content@) {
                Ok((next, done)) => r == Ok::<bool, GameError>(done) && final(self)@ == next,
                Err(e) => r == Err::<bool, GameError>(e) && final(self)@ == old(self)@,
            },
            final(self)@.inv(),
    {
        proof {
            use_type_invariant(&*self);
        }
        let n = self.players.len();
        if submission.player_idx as usize >= n {
            return Err(GameError::PlayerDoesNotExist);
        }
        if self.round as usize == n {
            return Err(GameError::InvalidRound);
        }
        let ghost pre = self@;
        let ghost slot = submission.player_idx;
        let ghost content = submission.content@;
        let ghost next = pre.submit(slot, content)->Ok_0.0;
        let GameState {
            players,
            round,
            game_started,
            mut round_imgs_or_prompts,
            prev_round_imgs_or_prompts,
            leader_board,
        } = self.take();
        let mut table = if round_imgs_or_prompts.len() > round as usize {
            round_imgs_or_prompts.pop().unwrap()
        } else {
            HashMap::new()
        };
        assert(table_view(table@) =~= pre.pending());
        table.insert(submission.player_idx, submission.content);
        proof {
            assert(table_view(table@) =~= pre.pending().insert(slot, content));
            assert(table@.dom() =~= table_view(table@).dom());
            pre.lemma_submit_keeps_inv(slot, content);
        }
        if table.len() == n {
            let rotation = rotate_map(&table);
            proof {
                lemma_rotated_map_values(table@, |content: String| content@);
            }
            round_imgs_or_prompts.push(table);
            assert(round_imgs_or_prompts@.map_values(|t: HashMap<u8, String>| table_view(t@))
                =~= next.tables);
            *self = GameState {
                players,
                round: round + 1,
                game_started,
                round_imgs_or_prompts,
                prev_round_imgs_or_prompts: Some(rotation),
                leader_board,
            };
            Ok(true)
        } else {
            round_imgs_or_prompts.push(table);
            assert(round_imgs_or_prompts@.map_values(|t: HashMap<u8, String>| table_view(t@))
                =~= next.tables);
            *self = GameState {
                players,
                round,
                game_started,
                round_imgs_or_prompts,
                prev_round_imgs_or_prompts,
                leader_board,
            };
            Ok(false)
        }
    }

    /// The content that slot `player_id` works on in the current round: what
    /// the slot before it submitted in the round just completed. Its kind is
    /// `story` in an even round and `image` in an odd one.
    ///
    /// Refused with `GameNotStarted` until a round has completed, else with
    /// `PlayerDoesNotExist` when nothing is assigned to the slot.
    pub fn send_round_info(&self, player_id: u8) -> (r: Result<Content, GameError>)
        ensures
            match self@.round_info(player_id) {
                Ok(content) => r matches Ok(c) && c@ == content,
                Err(e) => r matches Err(err) && err == e,
            },
            self@.inv(),
    {
        proof {
            use_type_invariant(self);
        }
        match &self.prev_round_imgs_or_prompts {
            None => Err(GameError::GameNotStarted),
            Some(assigned) => match assigned.get(&player_id) {
                None => Err(GameError::PlayerDoesNotExist),
                Some(data) => Ok(
                    Content { kind: kind_of(self.round as usize), data: data.clone(), idx: 0 },
                ),
            },
        }
    }

    /// The entry under key `round` of every completed round, in round order,
    /// each tagged with its position and the kind that belongs to it.
    ///
    /// Refused with `InvalidRound` while no round has completed, and while any
    /// round, the one in progress included, has no entry under the key: a
    /// missing entry is never passed over. Where the round in progress holds
    /// an entry, the call succeeds, and the list still ends with the last
    /// completed round.
    pub fn get_all_imgs_or_prompts(&self, round: u8) -> (r: Result<AllImgOrPrompt, GameError>)
        ensures
            match self@.storybook(round) {
                Ok(book) => r matches Ok(all) && all@ == book,
                Err(e) => r matches Err(err) && err == e,
            },
            self@.inv(),
    {
        proof {
            use_type_invariant(self);
        }
        let completed = self.round as usize;
        if completed == 0 {
            return Err(GameError::InvalidRound);
        }
        let mut content: Vec<Content> = Vec::new();
        let mut i: usize = 0;
        while i < completed
            invariant
                self@.inv(),
                i <= completed,
                completed == self@.round,
                completed <= self@.tables.len(),
                completed <= MAX_PLAYERS,
                forall|j: int| 0 <= j < i ==> (#[trigger] self@.tables[j]).contains_key(round),
                content@.map_values(|c: Content| c@) =~= Seq::new(
                    i as nat,
                    |j: int|
                        ContentView {
                            kind: kind_name(j as nat),
                            data: self@.tables[j][round],
                            idx: j as u8,
                        },
                ),
            decreases completed - i,
        {
            match self.round_imgs_or_prompts[i].get(&round) {
                None => {
                    assert(!self@.tables[i as int].contains_key(round));
                    return Err(GameError::InvalidRound);
                },
                Some(data) => {
                    let ghost before = content@.map_values(|c: Content| c@);
                    let entry = Content { kind: kind_of(i), data: data.clone(), idx: i as u8 };
                    assert(self@.tables[i as int][round] == entry.data@);
                    content.push(entry);
                    assert(content@.map_values(|c: Content| c@) =~= before.push(entry@));
                },
            }
            i = i + 1;
        }
        if self.round_imgs_or_prompts.len() > completed {
            if self.round_imgs_or_prompts[completed].get(&round).is_none() {
                assert(!self@.tables[completed as int].contains_key(round));
                return Err(GameError::InvalidRound);
            }
            assert(self@.tables[completed as int].contains_key(round));
        }
        Ok(AllImgOrPrompt { content, round: self.round + 1 })
    }

    /// Returns the session to the lobby: the round counter, the started flag,
    /// the submission tables and the assignments are cleared; the roster and
    /// the leaderboard stay.
    pub fn reset_game(&mut self) -> (r: Result<(), GameError>)
        ensures
            r is Ok,
            final(self)@ == old(self)@.reset(),
            final(self)@.round == 0,
            final(self)@.tables.len() == 0,
            final(self)@.assigned is None,
            final(self)@.players == old(self)@.players,
            final(self)@.board == old(self)@.board,
            final(self)@.inv(),
    {
        proof {
            use_type_invariant(&*self);
        }
        let ghost pre = self@;
        let GameState {
            players,
            round,
            game_started,
            round_imgs_or_prompts,
            prev_round_imgs_or_prompts,
            leader_board,
        } = self.take();
        let cleared: Vec<HashMap<u8, String>> = Vec::new();
        proof {
            assert(cleared@.map_values(|t: HashMap<u8, String>| table_view(t@)) =~= Seq::empty());
            pre.lemma_reset_keeps_inv();
        }
        *self = GameState {
            players,
            round: 0,
            game_started: false,
            round_imgs_or_prompts: cleared,
            prev_round_imgs_or_prompts: None,
            leader_board,
        };
        Ok(())
    }

    /// Whether `like_img` may be called with `input`: the liked player's
    /// score is below the largest score that can be stored.
    pub fn like_fits(&self, input: &LikeDrawInput) -> (fits: bool)
        ensures
            fits == self@.like_fits(input.like_idx),
    {
        proof {
            use_type_invariant(self);
        }
        let liked = input.like_idx as usize;
        if liked >= self.players.len() {
            return true;
        }
        assert(self@.players[liked as int].pub_key == self.players[liked as int].pub_key@);
        let at = entry_index(&self.leader_board, &self.players[liked].pub_key);
        self.leader_board[at].1 < i32::MAX
    }

    /// Slot `player_idx` likes the drawing of slot `like_idx`. The liked
    /// player's score goes up by one, whoever votes. The result holds the
    /// liked slot's submission in the round given by the distance between the
    /// two slots, and whether the voter is the last slot of the roster.
    ///
    /// Refused with `PlayerDoesNotExist` when the roster has no slot
    /// `like_idx`, else with `InvalidRound` when that round holds no
    /// submission of the liked slot.
    pub fn like_img(&mut self, input: LikeDrawInput) -> (r: Result<(String, bool), GameError>)
        requires
            old(self)@.like_fits(input.like_idx),
        ensures
            match old(self)@.like(input.player_idx, input.like_idx) {
                Ok((next, best, last)) => {
                    &&& r matches Ok(reply)
                    &&& reply.0@ == best
                    &&& reply.1 == last
                    &&& final(self)@ == next
                },
                Err(e) => r matches Err(err) && err == e && final(self)@ == old(self)@,
            },
            final(self)@.inv(),
    {
        proof {
            use_type_invariant(&*self);
        }
        let ghost pre = self@;
        let n = self.players.len();
        let voter = input.player_idx;
        let liked = input.like_idx;
        if liked as usize >= n {
            return Err(GameError::PlayerDoesNotExist);
        }
        let apart = if voter > liked {
            voter - liked
        } else {
            liked - voter
        };
        let round = apart as usize % n;
        if round >= self.round_imgs_or_prompts.len() {
            return Err(GameError::InvalidRound);
        }
        let best = match self.round_imgs_or_prompts[round].get(&liked) {
            None => {
                assert(!pre.tables[round as int].contains_key(liked));
                return Err(GameError::InvalidRound);
            },
            Some(content) => content.clone(),
        };
        assert(pre.tables[round as int][liked] == best@);
        let last = voter as usize == n - 1;
        let GameState {
            players,
            round,
            game_started,
            round_imgs_or_prompts,
            prev_round_imgs_or_prompts,
            mut leader_board,
        } = self.take();
        let at = entry_index(&leader_board, &players[liked as usize].pub_key);
        let entry = (leader_board[at].0.clone(), leader_board[at].1 + 1);
        leader_board.set(at, entry);
        proof {
            assert(board_view(leader_board@) =~= credited(
                pre.board,
                pre.players[liked as int].pub_key,
            ));
            pre.lemma_like_keeps_inv(voter, liked);
        }
        *self = GameState {
            players,
            round,
            game_started,
            round_imgs_or_prompts,
            prev_round_imgs_or_prompts,
            leader_board,
        };
        Ok((best, last))
    }

    /// The leaderboard, best first: scores in descending order, equal scores
    /// in the order in which their keys first joined.
    pub fn get_leaderboard(&self) -> (ranked: Vec<(String, i32)>)
        ensures
            is_ranking(self@.board, board_view(ranked@)),
            forall|i: int, j: int|
                0 <= i < j < ranked.len() ==> (#[trigger] ranked[i]).1 >= (#[trigger] ranked[j]).1,
            self@.inv(),
    {
        proof {
            use_type_invariant(self);
        }
        ranked_entries(&self.leader_board)
    }

    /// Whether every round has been played.
    pub fn game_finished(&self) -> (done: bool)
        ensures
            done == self@.finished(),
            self@.inv(),
    {
        proof {
            use_type_invariant(self);
        }
        self.round as usize == self.players.len()
    }
}

} // verus!
