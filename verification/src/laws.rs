//! Laws of the session: what holds of every run of joins, submissions and
//! likes, proved from the model in [`crate::model`].

use crate::model::{
    credited, lemma_credited, listed, place_of, score_of, Board, GameView, PlayerInputView, MAX_PLAYERS,
    MIN_PLAYERS,
};
use crate::ranking::{arranged, is_ranking, outranks, ranks};
use crate::state::GameError;
use crate::utils::{
    fully_populated, lemma_rotated_entry, lemma_slots_below_len, slots_below, source_slot,
};
use vstd::prelude::*;

verus! {

/// One request to join: the player's details and the connection's identifier.
pub struct JoinRequest {
    pub input: PlayerInputView,
    pub id: Seq<char>,
}

/// One submission: the slot that submits, and what it submits.
pub struct SubmissionView {
    pub slot: u8,
    pub content: Seq<char>,
}

/// The session after the requests of `joins`, in order; a rejected request
/// leaves the session as it was.
pub open spec fn after_joins(start: GameView, joins: Seq<JoinRequest>) -> GameView
    decreases joins.len(),
{
    if joins.len() == 0 {
        start
    } else {
        let before = after_joins(start, joins.drop_last());
        match before.join(joins.last().input, joins.last().id) {
            Ok(next) => next,
            Err(_) => before,
        }
    }
}

/// The session after the submissions of `subs`, in order; a rejected
/// submission leaves the session as it was.
pub open spec fn after_submissions(start: GameView, subs: Seq<SubmissionView>) -> GameView
    decreases subs.len(),
{
    if subs.len() == 0 {
        start
    } else {
        let before = after_submissions(start, subs.drop_last());
        match before.submit(subs.last().slot, subs.last().content) {
            Ok((next, done)) => next,
            Err(_) => before,
        }
    }
}

/// How many submissions of `subs` completed a round.
pub open spec fn completions(start: GameView, subs: Seq<SubmissionView>) -> nat
    decreases subs.len(),
{
    if subs.len() == 0 {
        0
    } else {
        let before = after_submissions(start, subs.drop_last());
        let earlier = completions(start, subs.drop_last());
        match before.submit(subs.last().slot, subs.last().content) {
            Ok((next, done)) => if done {
                earlier + 1
            } else {
                earlier
            },
            Err(_) => earlier,
        }
    }
}

/// The slots that occur in `subs`.
pub open spec fn slots_of(subs: Seq<SubmissionView>) -> Set<u8> {
    Set::new(|k: u8| exists|i: int| 0 <= i < subs.len() && (#[trigger] subs[i]).slot == k)
}

/// Up to eight joins to an empty lobby all succeed, and the roster has one
/// player for each.
pub proof fn law_joins_fill_the_roster(joins: Seq<JoinRequest>)
    requires
        joins.len() <= MAX_PLAYERS,
    ensures
        after_joins(GameView::lobby(), joins).players.len() == joins.len(),
        after_joins(GameView::lobby(), joins).inv(),
        !after_joins(GameView::lobby(), joins).started,
        joins.len() > 0 ==> after_joins(GameView::lobby(), joins.drop_last()).join(
            joins.last().input,
            joins.last().id,
        ) is Ok,
    decreases joins.len(),
{
    if joins.len() > 0 {
        law_joins_fill_the_roster(joins.drop_last());
        let before = after_joins(GameView::lobby(), joins.drop_last());
        before.lemma_join_keeps_inv(joins.last().input, joins.last().id);
    }
}

/// After eight joins to an empty lobby, a ninth is rejected: the game is full.
pub proof fn law_ninth_join_is_rejected(joins: Seq<JoinRequest>, ninth: JoinRequest)
    requires
        joins.len() == MAX_PLAYERS,
    ensures
        after_joins(GameView::lobby(), joins).join(ninth.input, ninth.id) == Err::<
            GameView,
            GameError,
        >(GameError::GameFull),
{
    law_joins_fill_the_roster(joins);
}

/// A lobby of fewer than three players cannot start; one of three or more
/// starts once, and a second start is rejected.
pub proof fn law_start_happens_once(s: GameView)
    requires
        !s.started,
    ensures
        s.players.len() < MIN_PLAYERS ==> s.start() == Err::<GameView, GameError>(
            GameError::NotEnoughPlayers,
        ),
        s.players.len() >= MIN_PLAYERS ==> (s.start() matches Ok(next) && next.start() == Err::<
            GameView,
            GameError,
        >(GameError::GameStarted)),
{
}

/// The slots that occur in a run of submissions are finitely many, and they
/// grow with the run.
pub proof fn lemma_slots_of(subs: Seq<SubmissionView>)
    ensures
        slots_of(subs).finite(),
        slots_of(subs).len() <= subs.len(),
        subs.len() > 0 ==> slots_of(subs) == slots_of(subs.drop_last()).insert(subs.last().slot),
    decreases subs.len(),
{
    if subs.len() == 0 {
        assert(slots_of(subs) =~= Set::<u8>::empty());
    } else {
        let front = subs.drop_last();
        lemma_slots_of(front);
        assert forall|k: u8| slots_of(subs).contains(k) implies slots_of(front).insert(
            subs.last().slot,
        ).contains(k) by {
            let i = choose|i: int| 0 <= i < subs.len() && (#[trigger] subs[i]).slot == k;
            if i < front.len() {
                assert(front[i].slot == k);
            }
        }
        assert forall|k: u8| slots_of(front).insert(subs.last().slot).contains(
            k,
        ) implies slots_of(subs).contains(k) by {
            if slots_of(front).contains(k) {
                let i = choose|i: int| 0 <= i < front.len() && (#[trigger] front[i]).slot == k;
                assert(subs[i].slot == k);
            } else {
                assert(subs[subs.len() - 1].slot == k);
            }
        }
        assert(slots_of(subs) =~= slots_of(front).insert(subs.last().slot));
    }
}

/// While fewer slots have submitted than the roster has players, the round
/// stays open, and its table holds exactly the slots that submitted.
pub proof fn lemma_round_stays_open(s: GameView, subs: Seq<SubmissionView>)
    requires
        s.inv(),
        s.tables.len() == s.round,
        s.round < s.players.len(),
        forall|i: int| 0 <= i < subs.len() ==> (#[trigger] subs[i]).slot < s.players.len(),
        slots_of(subs).len() < s.players.len(),
    ensures
        after_submissions(s, subs).inv(),
        after_submissions(s, subs).round == s.round,
        after_submissions(s, subs).players == s.players,
        after_submissions(s, subs).pending().dom() == slots_of(subs),
    decreases subs.len(),
{
    if subs.len() == 0 {
        assert(slots_of(subs) =~= Set::<u8>::empty());
        assert(s.pending().dom() =~= Set::<u8>::empty());
    } else {
        let front = subs.drop_last();
        lemma_slots_of(subs);
        lemma_slots_of(front);
        assert forall|i: int| 0 <= i < front.len() implies (#[trigger] front[i]).slot
            < s.players.len() by {
            assert(front[i] == subs[i]);
        }
        vstd::set_lib::lemma_len_subset(slots_of(front), slots_of(subs));
        lemma_round_stays_open(s, front);
        let before = after_submissions(s, front);
        before.lemma_submit_keeps_inv(subs.last().slot, subs.last().content);
        assert(before.pending().insert(subs.last().slot, subs.last().content).dom()
            =~= slots_of(subs));
    }
}

/// In a round that nobody has submitted to yet, a submission completes the
/// round exactly when it brings the number of distinct slots that have
/// submitted up to the size of the roster. Submitting again for a slot adds
/// no slot, so it never completes an open round.
pub proof fn law_round_completes_on_last_slot(s: GameView, subs: Seq<SubmissionView>)
    requires
        s.inv(),
        s.tables.len() == s.round,
        s.round < s.players.len(),
        subs.len() > 0,
        forall|i: int| 0 <= i < subs.len() ==> (#[trigger] subs[i]).slot < s.players.len(),
        slots_of(subs.drop_last()).len() < s.players.len(),
    ensures
        after_submissions(s, subs.drop_last()).submit(subs.last().slot, subs.last().content)
            matches Ok((next, done)) && done == (slots_of(subs).len() == s.players.len()),
{
    let front = subs.drop_last();
    assert forall|i: int| 0 <= i < front.len() implies (#[trigger] front[i]).slot
        < s.players.len() by {
        assert(front[i] == subs[i]);
    }
    lemma_round_stays_open(s, front);
    lemma_slots_of(subs);
    let before = after_submissions(s, front);
    assert(before.pending().insert(subs.last().slot, subs.last().content).dom() =~= slots_of(
        subs,
    ));
}

/// A run of submissions from distinct slots names as many slots as it is long.
pub proof fn lemma_distinct_slots(subs: Seq<SubmissionView>)
    requires
        forall|i: int, j: int|
            0 <= i < j < subs.len() ==> (#[trigger] subs[i]).slot != (#[trigger] subs[j]).slot,
    ensures
        slots_of(subs).len() == subs.len(),
    decreases subs.len(),
{
    lemma_slots_of(subs);
    if subs.len() > 0 {
        let front = subs.drop_last();
        lemma_slots_of(front);
        lemma_distinct_slots(front);
        if slots_of(front).contains(subs.last().slot) {
            let i = choose|i: int|
                0 <= i < front.len() && (#[trigger] front[i]).slot == subs.last().slot;
            assert(subs[i].slot != subs[subs.len() - 1].slot);
        }
    }
}

/// When every player of the roster submits once to a fresh round, in whatever
/// order the submissions are taken, exactly one of them reports the round as
/// complete: the last.
pub proof fn law_one_completion_per_round(s: GameView, subs: Seq<SubmissionView>, k: int)
    requires
        s.inv(),
        s.tables.len() == s.round,
        s.round < s.players.len(),
        subs.len() == s.players.len(),
        forall|i: int| 0 <= i < subs.len() ==> (#[trigger] subs[i]).slot < s.players.len(),
        forall|i: int, j: int|
            0 <= i < j < subs.len() ==> (#[trigger] subs[i]).slot != (#[trigger] subs[j]).slot,
        0 <= k < subs.len(),
    ensures
        after_submissions(s, subs.take(k)).submit(subs[k].slot, subs[k].content) matches Ok(
            (next, done),
        ) && done == (k == subs.len() - 1),
{
    let upto = subs.take(k + 1);
    assert(upto.drop_last() =~= subs.take(k));
    assert(upto.last() == subs[k]);
    lemma_distinct_slots(upto);
    lemma_distinct_slots(subs.take(k));
    law_round_completes_on_last_slot(s, upto);
}

/// The round counter counts the completed rounds, and the game is finished
/// exactly when as many rounds have been completed as the roster has players.
pub proof fn law_finished_after_all_rounds(s: GameView, subs: Seq<SubmissionView>)
    requires
        s.inv(),
    ensures
        after_submissions(s, subs).inv(),
        after_submissions(s, subs).players == s.players,
        after_submissions(s, subs).round == s.round + completions(s, subs),
        after_submissions(s, subs).finished() <==> s.round + completions(s, subs)
            == s.players.len(),
    decreases subs.len(),
{
    if subs.len() > 0 {
        law_finished_after_all_rounds(s, subs.drop_last());
        let before = after_submissions(s, subs.drop_last());
        before.lemma_submit_keeps_inv(subs.last().slot, subs.last().content);
    }
}

/// Rotation: when a submission completes a round, every slot `k` of the
/// roster is assigned, for the next round, what slot `(k - 1) mod n`
/// submitted in the round just completed.
pub proof fn law_rotation(s: GameView, slot: u8, content: Seq<char>, k: u8)
    requires
        s.inv(),
        s.submit(slot, content) matches Ok((next, done)) && done,
        k < s.players.len(),
    ensures
        ({
            let next = s.submit(slot, content)->Ok_0.0;
            let completed = next.tables[s.round as int];
            let from = source_slot(k, s.players.len());
            &&& completed == s.pending().insert(slot, content)
            &&& from == if k == 0 {
                s.players.len() - 1
            } else {
                k - 1
            }
            &&& completed.contains_key(from)
            &&& next.round_info(k) matches Ok(info)
            &&& info.data == completed[from]
        }),
{
    s.lemma_submit_keeps_inv(slot, content);
    let table = s.pending().insert(slot, content);
    lemma_slots_below_len(s.players.len());
    assert(slots_below(s.players.len()).contains(k));
    lemma_rotated_entry(table, k);
}

/// A like raises the score of the liked player's key by exactly one and
/// leaves every other score as it was, whoever casts it.
pub proof fn law_like_adds_one(s: GameView, voter: u8, liked: u8, other_voter: u8)
    requires
        s.inv(),
        s.like(voter, liked) is Ok,
    ensures
        ({
            let next = s.like(voter, liked)->Ok_0.0;
            let key = s.players[liked as int].pub_key;
            &&& score_of(next.board, key) == score_of(s.board, key) + 1
            &&& forall|other: Seq<char>|
                listed(s.board, other) && other != key ==> score_of(next.board, other) == score_of(
                    s.board,
                    other,
                )
            &&& forall|other: Seq<char>| listed(next.board, other) <==> listed(s.board, other)
            &&& s.like(other_voter, liked) matches Ok((same, best, last)) ==> same.board
                == next.board
        }),
{
    let next = s.like(voter, liked)->Ok_0.0;
    let key = s.players[liked as int].pub_key;
    assert(listed(s.board, key));
    lemma_credited(s.board, key);
    assert forall|other: Seq<char>| listed(s.board, other) implies score_of(next.board, other)
        == if other == key {
        score_of(s.board, other) + 1
    } else {
        score_of(s.board, other)
    } by {
        let p = place_of(s.board, other);
        let q = place_of(next.board, other);
        assert(next.board[q].0 == s.board[q].0);
        if p < q {
            assert(s.board[p].0 != s.board[q].0);
        } else if q < p {
            assert(s.board[q].0 != s.board[p].0);
        }
    }
}

/// Once every round has been played by the whole roster, a like for a slot of
/// the roster counts whoever casts it: any two voters leave the same board
/// behind, the one in which the liked player's key has one point more and
/// nothing else has changed. The voter decides only which content comes back
/// and whether the vote was the last. What `like_img` asks of its caller, room
/// for one more point, is asked of the liked slot alone, so it holds for both
/// voters or for neither.
pub proof fn law_like_counts_for_every_voter(s: GameView, first: u8, second: u8, liked: u8)
    requires
        s.inv(),
        s.finished(),
        forall|i: int| 0 <= i < s.round ==> (#[trigger] s.tables[i]).len() == s.players.len(),
        liked < s.players.len(),
    ensures
        s.like(first, liked) is Ok,
        s.like(second, liked) is Ok,
        ({
            let key = s.players[liked as int].pub_key;
            let a = s.like(first, liked)->Ok_0.0;
            let b = s.like(second, liked)->Ok_0.0;
            &&& a.board == b.board
            &&& a.board == credited(s.board, key)
            &&& score_of(a.board, key) == score_of(s.board, key) + 1
            &&& forall|other: Seq<char>|
                listed(s.board, other) && other != key ==> score_of(a.board, other) == score_of(
                    s.board,
                    other,
                )
            &&& a.players == s.players && a.round == s.round && a.tables == s.tables
        }),
{
    lemma_like_reads_a_full_table(s, first, liked);
    lemma_like_reads_a_full_table(s, second, liked);
    law_like_adds_one(s, first, liked, second);
}

/// In a finished game whose every round was played by the whole roster, the
/// table that a like reads holds the liked slot.
proof fn lemma_like_reads_a_full_table(s: GameView, voter: u8, liked: u8)
    requires
        s.inv(),
        s.finished(),
        forall|i: int| 0 <= i < s.round ==> (#[trigger] s.tables[i]).len() == s.players.len(),
        liked < s.players.len(),
    ensures
        s.like(voter, liked) is Ok,
{
    let n = s.players.len() as int;
    let apart: int = if voter > liked {
        voter - liked
    } else {
        liked - voter
    };
    vstd::arithmetic::div_mod::lemma_mod_pos_bound(apart, n);
    let r = s.liked_round(voter, liked);
    assert(0 <= r < s.round);
    assert(fully_populated(s.tables[r]));
    assert(slots_below(s.players.len()).contains(liked));
}

/// A ranking never places a lower score before a higher one, and where all
/// scores differ it descends strictly.
pub proof fn law_ranking_descends(board: Board, ranked: Board)
    requires
        is_ranking(board, ranked),
    ensures
        ranked.len() == board.len(),
        forall|i: int, j: int|
            0 <= i < j < ranked.len() ==> (#[trigger] ranked[i]).1 >= (#[trigger] ranked[j]).1,
        (forall|a: int, b: int|
            0 <= a < b < board.len() ==> (#[trigger] board[a]).1 != (#[trigger] board[b]).1)
            ==> forall|i: int, j: int|
            0 <= i < j < ranked.len() ==> (#[trigger] ranked[i]).1 > (#[trigger] ranked[j]).1,
{
    let order = choose|order: Seq<int>| ranks(board, order) && ranked == arranged(board, order);
    assert forall|i: int, j: int| 0 <= i < j < ranked.len() implies (#[trigger] ranked[i]).1 >= (
    #[trigger] ranked[j]).1 by {
        assert(outranks(board, order[i], order[j]));
    }
    if forall|a: int, b: int|
        0 <= a < b < board.len() ==> (#[trigger] board[a]).1 != (#[trigger] board[b]).1 {
        assert forall|i: int, j: int| 0 <= i < j < ranked.len() implies (#[trigger] ranked[i]).1
            > (#[trigger] ranked[j]).1 by {
            assert(outranks(board, order[i], order[j]));
            let a = order[i];
            let b = order[j];
            if a < b {
                assert(board[a].1 != board[b].1);
            } else if b < a {
                assert(board[b].1 != board[a].1);
            }
        }
    }
}

} // verus!
