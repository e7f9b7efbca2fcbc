//! The mathematical model of one room's game session.
//!
//! A session is described by a [`GameView`]; every operation of the session is
//! a function from a view to the next view and its result. The executable
//! session in [`crate::state`] is specified against these functions.

use crate::state::GameError;
use crate::utils::{
    fully_populated, lemma_full_table, lemma_table_len_bound, rotated, slots_below,
};
use vstd::prelude::*;

verus! {

/// The largest roster a session accepts.
pub const MAX_PLAYERS: usize = 8;

/// The smallest roster a game can be started with.
pub const MIN_PLAYERS: usize = 3;

/// One round's submissions: slot index to content.
pub type Table = Map<u8, Seq<char>>;

/// The leaderboard: one entry per public key, in the order the keys first joined.
pub type Board = Seq<(Seq<char>, int)>;

pub struct PlayerView {
    pub id: Seq<char>,
    pub pub_key: Seq<char>,
    pub name: Seq<char>,
    pub is_host: bool,
    pub avatar: Seq<char>,
}

pub struct PlayerInputView {
    pub pub_key: Seq<char>,
    pub name: Seq<char>,
    pub avatar: Seq<char>,
}

pub struct ContentView {
    pub kind: Seq<char>,
    pub data: Seq<char>,
    pub idx: u8,
}

pub struct StorybookView {
    pub content: Seq<ContentView>,
    pub round: u8,
}

/// The name of the content kind that belongs to position `i`: the two kinds
/// alternate, starting with a story.
pub open spec fn kind_name(i: nat) -> Seq<char> {
    if i % 2 == 0 {
        "story"@
    } else {
        "image"@
    }
}

/// Whether the board has an entry for `key`.
pub open spec fn listed(board: Board, key: Seq<char>) -> bool {
    exists|i: int| 0 <= i < board.len() && (#[trigger] board[i]).0 == key
}

/// The position of the entry for `key`.
pub open spec fn place_of(board: Board, key: Seq<char>) -> int {
    choose|i: int| 0 <= i < board.len() && (#[trigger] board[i]).0 == key
}

/// The score recorded for `key`.
pub open spec fn score_of(board: Board, key: Seq<char>) -> int {
    board[place_of(board, key)].1
}

/// No public key has two entries.
pub open spec fn distinct_keys(board: Board) -> bool {
    forall|i: int, j: int|
        0 <= i < j < board.len() ==> (#[trigger] board[i]).0 != (#[trigger] board[j]).0
}

/// The board once `key` has joined: a new key enters at the end with score 0,
/// a known key keeps its entry and its score.
pub open spec fn enrolled(board: Board, key: Seq<char>) -> Board {
    if listed(board, key) {
        board
    } else {
        board.push((key, 0int))
    }
}

/// Enrolling a key keeps the entries that were there, lists the key, and keeps
/// the keys distinct.
pub proof fn lemma_enrolled(board: Board, key: Seq<char>)
    requires
        distinct_keys(board),
    ensures
        distinct_keys(enrolled(board, key)),
        listed(enrolled(board, key), key),
        board.len() <= enrolled(board, key).len(),
        forall|i: int| 0 <= i < board.len() ==> enrolled(board, key)[i] == board[i],
{
    let after = enrolled(board, key);
    if !listed(board, key) {
        assert(after[board.len() as int].0 == key);
        assert forall|i: int, j: int| 0 <= i < j < after.len() implies (#[trigger] after[i]).0 != (
        #[trigger] after[j]).0 by {
            if j == board.len() {
                assert(board[i].0 != key);
            }
        }
    }
}

/// The board once `key` has received one like.
pub open spec fn credited(board: Board, key: Seq<char>) -> Board {
    let i = place_of(board, key);
    board.update(i, (key, board[i].1 + 1))
}

/// Crediting a listed key changes the score of its entry and nothing else.
pub proof fn lemma_credited(board: Board, key: Seq<char>)
    requires
        distinct_keys(board),
        listed(board, key),
    ensures
        distinct_keys(credited(board, key)),
        credited(board, key).len() == board.len(),
        forall|i: int|
            0 <= i < board.len() ==> (#[trigger] credited(board, key)[i]).0 == board[i].0,
        forall|i: int|
            0 <= i < board.len() ==> (#[trigger] credited(board, key)[i]).1 == if board[i].0
                == key {
                board[i].1 + 1
            } else {
                board[i].1
            },
        forall|other: Seq<char>| listed(board, other) <==> listed(credited(board, key), other),
{
    let after = credited(board, key);
    let p = place_of(board, key);
    assert forall|i: int| 0 <= i < board.len() implies (#[trigger] after[i]).0 == board[i].0 by {}
    assert forall|i: int| 0 <= i < board.len() implies (#[trigger] after[i]).1 == if board[i].0
        == key {
        board[i].1 + 1
    } else {
        board[i].1
    } by {
        if board[i].0 == key && i != p {
            if i < p {
                assert(board[i].0 != board[p].0);
            } else {
                assert(board[p].0 != board[i].0);
            }
        }
    }
    assert forall|i: int, j: int| 0 <= i < j < after.len() implies (#[trigger] after[i]).0 != (
    #[trigger] after[j]).0 by {
        assert(board[i].0 != board[j].0);
    }
    assert forall|other: Seq<char>| listed(board, other) <==> listed(after, other) by {
        if listed(board, other) {
            let i = place_of(board, other);
            assert(after[i].0 == other);
        }
        if listed(after, other) {
            let i = place_of(after, other);
            assert(board[i].0 == other);
        }
    }
}

/// The distance between two slots on a roster of `n` players.
pub open spec fn slot_distance(voter: u8, liked: u8, n: nat) -> int {
    let apart = if voter > liked {
        voter - liked
    } else {
        liked - voter
    };
    apart % (n as int)
}

pub struct GameView {
    /// The roster, in join order.
    pub players: Seq<PlayerView>,
    /// The number of rounds completed so far.
    pub round: nat,
    pub started: bool,
    /// The submission tables: one per completed round, and after them the
    /// table of the round in progress once it holds a submission.
    pub tables: Seq<Table>,
    /// What each slot works on in the current round; `None` until a round
    /// has completed.
    pub assigned: Option<Table>,
    pub board: Board,
}

impl GameView {
    /// The session before anybody joined.
    pub open spec fn lobby() -> GameView {
        GameView {
            players: Seq::empty(),
            round: 0,
            started: false,
            tables: Seq::empty(),
            assigned: None,
            board: Seq::empty(),
        }
    }

    /// What holds of every session, whatever was done to it.
    pub open spec fn inv(self) -> bool {
        &&& self.players.len() <= MAX_PLAYERS
        &&& self.round <= self.players.len()
        &&& self.round <= self.tables.len() <= self.round + 1
        &&& forall|i: int|
            0 <= i < self.players.len() ==> (#[trigger] self.players[i]).is_host == (i == 0)
        &&& forall|i: int|
            0 <= i < self.tables.len() ==> {
                &&& (#[trigger] self.tables[i]).dom().finite()
                &&& self.tables[i].dom().subset_of(slots_below(self.players.len()))
            }
        &&& forall|i: int|
            0 <= i < self.round ==> {
                &&& fully_populated(#[trigger] self.tables[i])
                &&& self.tables[i].len() >= 1
            }
        &&& self.tables.len() > self.round ==> self.tables[self.round as int].len()
            < self.players.len()
        &&& self.assigned == if self.round == 0 {
            None
        } else {
            Some(rotated(self.tables[self.round - 1]))
        }
        &&& distinct_keys(self.board)
        &&& forall|i: int|
            0 <= i < self.players.len() ==> listed(self.board, (#[trigger] self.players[i]).pub_key)
    }

    /// The submissions made so far in the round in progress.
    pub open spec fn pending(self) -> Table {
        if self.tables.len() > self.round {
            self.tables[self.round as int]
        } else {
            Map::empty()
        }
    }

    /// A player joins the lobby. The first to join is the host.
    pub open spec fn join(self, input: PlayerInputView, id: Seq<char>) -> Result<
        GameView,
        GameError,
    > {
        if self.started {
            Err(GameError::GameStarted)
        } else if self.players.len() >= MAX_PLAYERS {
            Err(GameError::GameFull)
        } else {
            Ok(
                GameView {
                    players: self.players.push(
                        PlayerView {
                            id,
                            pub_key: input.pub_key,
                            name: input.name,
                            is_host: self.players.len() == 0,
                            avatar: input.avatar,
                        },
                    ),
                    board: enrolled(self.board, input.pub_key),
                    ..self
                },
            )
        }
    }

    /// Joining keeps the session well formed.
    pub proof fn lemma_join_keeps_inv(self, input: PlayerInputView, id: Seq<char>)
        requires
            self.inv(),
        ensures
            self.join(input, id) matches Ok(next) ==> next.inv(),
    {
        if let Ok(next) = self.join(input, id) {
            let n = self.players.len() as int;
            assert forall|i: int| 0 <= i < next.tables.len() implies {
                &&& (#[trigger] next.tables[i]).dom().finite()
                &&& next.tables[i].dom().subset_of(slots_below(next.players.len()))
            } by {
                assert(self.tables[i].dom().subset_of(slots_below(self.players.len())));
            }
            lemma_enrolled(self.board, input.pub_key);
            assert forall|i: int| 0 <= i < next.players.len() implies listed(
                next.board,
                (#[trigger] next.players[i]).pub_key,
            ) by {
                if i < n {
                    let j = place_of(self.board, self.players[i].pub_key);
                    assert(listed(self.board, self.players[i].pub_key));
                    assert(next.board[j].0 == self.players[i].pub_key);
                }
            }
        }
    }

    /// The game starts.
    pub open spec fn start(self) -> Result<GameView, GameError> {
        if self.started {
            Err(GameError::GameStarted)
        } else if self.players.len() < MIN_PLAYERS {
            Err(GameError::NotEnoughPlayers)
        } else {
            Ok(GameView { started: true, ..self })
        }
    }

    /// Slot `slot` submits `content` for the round in progress. The flag in
    /// the result says whether this submission completed the round.
    pub open spec fn submit(self, slot: u8, content: Seq<char>) -> Result<
        (GameView, bool),
        GameError,
    > {
        if slot >= self.players.len() {
            Err(GameError::PlayerDoesNotExist)
        } else if self.round == self.players.len() {
            Err(GameError::InvalidRound)
        } else {
            let table = self.pending().insert(slot, content);
            let tables = self.tables.take(self.round as int).push(table);
            if table.len() == self.players.len() {
                Ok(
                    (
                        GameView {
                            round: self.round + 1,
                            tables,
                            assigned: Some(rotated(table)),
                            ..self
                        },
                        true,
                    ),
                )
            } else {
                Ok((GameView { tables, ..self }, false))
            }
        }
    }

    /// A submission keeps the session well formed.
    pub proof fn lemma_submit_keeps_inv(self, slot: u8, content: Seq<char>)
        requires
            self.inv(),
        ensures
            self.submit(slot, content) matches Ok((next, done)) ==> next.inv(),
            self.submit(slot, content) is Ok ==> {
                let table = self.pending().insert(slot, content);
                &&& table.dom().finite()
                &&& table.dom().subset_of(slots_below(self.players.len()))
                &&& table.len() <= self.players.len()
                &&& table.len() == self.players.len() ==> fully_populated(table)
            },
    {
        if let Ok((next, done)) = self.submit(slot, content) {
            let n = self.players.len();
            let table = self.pending().insert(slot, content);
            assert(self.pending().dom().finite());
            assert(self.pending().dom().subset_of(slots_below(n)));
            assert(table.dom().subset_of(slots_below(n)));
            lemma_table_len_bound(table, n);
            if table.len() == n {
                lemma_full_table(table, n);
            }
            assert forall|i: int| 0 <= i < next.tables.len() implies {
                &&& (#[trigger] next.tables[i]).dom().finite()
                &&& next.tables[i].dom().subset_of(slots_below(next.players.len()))
            } by {
                if i < self.round {
                    assert(next.tables[i] == self.tables[i]);
                }
            }
            assert forall|i: int| 0 <= i < next.round implies {
                &&& fully_populated(#[trigger] next.tables[i])
                &&& next.tables[i].len() >= 1
            } by {
                if i < self.round {
                    assert(next.tables[i] == self.tables[i]);
                } else {
                    assert(table.contains_key(slot));
                }
            }
            if !done && self.round > 0 {
                assert(next.tables[self.round - 1] == self.tables[self.round - 1]);
            }
        }
    }

    /// What slot `slot` works on in the current round.
    pub open spec fn round_info(self, slot: u8) -> Result<ContentView, GameError> {
        match self.assigned {
            None => Err(GameError::GameNotStarted),
            Some(table) => if table.contains_key(slot) {
                Ok(ContentView { kind: kind_name(self.round), data: table[slot], idx: 0 })
            } else {
                Err(GameError::PlayerDoesNotExist)
            },
        }
    }

    /// Whether every table, that of the round in progress included, holds an
    /// entry under `key`.
    pub open spec fn held_throughout(self, key: u8) -> bool {
        forall|i: int| 0 <= i < self.tables.len() ==> (#[trigger] self.tables[i]).contains_key(key)
    }

    /// The replay of `key`: its entry in every completed round, in round
    /// order. There is no replay before a round has completed, nor while any
    /// table lacks an entry under `key`: a miss is an error, never a shorter
    /// list. The round in progress must hold the entry too, but its entry is
    /// not part of the list, which is made of completed rounds only.
    pub open spec fn storybook(self, key: u8) -> Result<StorybookView, GameError> {
        if self.round >= 1 && self.held_throughout(key) {
            Ok(
                StorybookView {
                    content: Seq::new(
                        self.round,
                        |i: int|
                            ContentView {
                                kind: kind_name(i as nat),
                                data: self.tables[i][key],
                                idx: i as u8,
                            },
                    ),
                    round: (self.round + 1) as u8,
                },
            )
        } else {
            Err(GameError::InvalidRound)
        }
    }

    /// The round whose table a like from `voter` for `liked` reads.
    pub open spec fn liked_round(self, voter: u8, liked: u8) -> int {
        slot_distance(voter, liked, self.players.len())
    }

    /// Whether the score of the player in slot `liked` can grow by one
    /// without leaving the range of the scores that the session stores.
    pub open spec fn like_fits(self, liked: u8) -> bool {
        liked < self.players.len() ==> score_of(self.board, self.players[liked as int].pub_key)
            < i32::MAX
    }

    /// Slot `voter` likes the drawing of slot `liked`. The result holds the
    /// next session, the winning content, and whether `voter` is the last slot.
    pub open spec fn like(self, voter: u8, liked: u8) -> Result<
        (GameView, Seq<char>, bool),
        GameError,
    > {
        let r = self.liked_round(voter, liked);
        if liked >= self.players.len() {
            Err(GameError::PlayerDoesNotExist)
        } else if r >= self.tables.len() || !self.tables[r].contains_key(liked) {
            Err(GameError::InvalidRound)
        } else {
            Ok(
                (
                    GameView {
                        board: credited(self.board, self.players[liked as int].pub_key),
                        ..self
                    },
                    self.tables[r][liked],
                    voter == self.players.len() - 1,
                ),
            )
        }
    }

    /// A like keeps the session well formed.
    pub proof fn lemma_like_keeps_inv(self, voter: u8, liked: u8)
        requires
            self.inv(),
        ensures
            self.like(voter, liked) matches Ok((next, best, last)) ==> next.inv(),
    {
        if let Ok((next, best, last)) = self.like(voter, liked) {
            let key = self.players[liked as int].pub_key;
            lemma_credited(self.board, key);
            assert forall|i: int| 0 <= i < next.players.len() implies listed(
                next.board,
                (#[trigger] next.players[i]).pub_key,
            ) by {
                assert(listed(self.board, self.players[i].pub_key));
            }
        }
    }

    /// Whether every round has been played.
    pub open spec fn finished(self) -> bool {
        self.round == self.players.len()
    }

    /// Back to the lobby: the rounds are forgotten, the roster and the scores stay.
    pub open spec fn reset(self) -> GameView {
        GameView { round: 0, started: false, tables: Seq::empty(), assigned: None, ..self }
    }

    /// A reset keeps the session well formed.
    pub proof fn lemma_reset_keeps_inv(self)
        requires
            self.inv(),
        ensures
            self.reset().inv(),
    {
    }
}

} // verus!
