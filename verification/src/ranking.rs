//! The ranking of a leaderboard: scores in descending order, equal scores in
//! the order in which their keys joined.

use crate::model::Board;
use crate::state::board_view;
use vstd::prelude::*;

verus! {

/// Entry `a` of the board stands before entry `b` in the ranking: it has the
/// higher score, or the same score and the earlier place on the board.
pub open spec fn outranks(board: Board, a: int, b: int) -> bool {
    board[a].1 > board[b].1 || (board[a].1 == board[b].1 && a < b)
}

/// `order` lists the places of the board, best first.
pub open spec fn ranks(board: Board, order: Seq<int>) -> bool {
    &&& order.len() == board.len()
    &&& forall|i: int| 0 <= i < order.len() ==> 0 <= #[trigger] order[i] < board.len()
    &&& forall|i: int, j: int|
        0 <= i < j < order.len() ==> outranks(board, #[trigger] order[i], #[trigger] order[j])
}

/// The entries of the board in the order given by `order`.
pub open spec fn arranged(board: Board, order: Seq<int>) -> Board {
    Seq::new(order.len(), |i: int| board[order[i]])
}

/// `ranked` is the ranking of `board`.
pub open spec fn is_ranking(board: Board, ranked: Board) -> bool {
    exists|order: Seq<int>| ranks(board, order) && ranked == arranged(board, order)
}

/// An order that ranks a board names every place of the board exactly once.
pub proof fn lemma_ranks_is_permutation(board: Board, order: Seq<int>)
    requires
        ranks(board, order),
    ensures
        order.no_duplicates(),
        forall|p: int| 0 <= p < board.len() ==> order.contains(p),
{
    assert forall|i: int, j: int| 0 <= i < order.len() && 0 <= j < order.len() && i != j implies
        order[i] != order[j] by {
        if i < j {
            assert(outranks(board, order[i], order[j]));
        } else {
            assert(outranks(board, order[j], order[i]));
        }
    }
    let n = board.len() as int;
    order.unique_seq_to_set();
    vstd::set_lib::lemma_int_range(0, n);
    assert forall|p: int| order.to_set().contains(p) implies vstd::set_lib::set_int_range(
        0,
        n,
    ).contains(p) by {
        let i = choose|i: int| 0 <= i < order.len() && order[i] == p;
        assert(0 <= order[i] < n);
    }
    vstd::set_lib::lemma_subset_equality(order.to_set(), vstd::set_lib::set_int_range(0, n));
    assert forall|p: int| 0 <= p < n implies order.contains(p) by {
        assert(vstd::set_lib::set_int_range(0, n).contains(p));
        assert(order.to_set().contains(p));
    }
}

/// Two orders that rank the same board agree at every position.
proof fn lemma_orders_agree(board: Board, first: Seq<int>, second: Seq<int>, i: int)
    requires
        ranks(board, first),
        ranks(board, second),
        0 <= i < board.len(),
    ensures
        first[i] == second[i],
    decreases i,
{
    assert forall|j: int| 0 <= j < i implies first[j] == second[j] by {
        lemma_orders_agree(board, first, second, j);
    }
    lemma_ranks_is_permutation(board, first);
    lemma_ranks_is_permutation(board, second);
    let p = first[i];
    let q = second[i];
    if p != q {
        assert(second.contains(p));
        let j = choose|j: int| 0 <= j < second.len() && second[j] == p;
        assert(j > i) by {
            if j < i {
                assert(first[j] == p);
            }
        }
        assert(outranks(board, second[i], second[j]));
        assert(first.contains(q));
        let k = choose|k: int| 0 <= k < first.len() && first[k] == q;
        assert(k > i) by {
            if k < i {
                assert(second[k] == q);
            }
        }
        assert(outranks(board, first[i], first[k]));
    }
}

/// A board has one ranking only.
pub proof fn law_ranking_is_unique(board: Board, first: Board, second: Board)
    requires
        is_ranking(board, first),
        is_ranking(board, second),
    ensures
        first == second,
{
    let a = choose|order: Seq<int>| ranks(board, order) && first == arranged(board, order);
    let b = choose|order: Seq<int>| ranks(board, order) && second == arranged(board, order);
    assert forall|i: int| 0 <= i < board.len() implies a[i] == b[i] by {
        lemma_orders_agree(board, a, b, i);
    }
    assert(first =~= second);
}

/// The entries of `board`, best first.
pub fn ranked_entries(board: &Vec<(String, i32)>) -> (ranked: Vec<(String, i32)>)
    ensures
        is_ranking(board_view(board@), board_view(ranked@)),
        forall|i: int, j: int|
            0 <= i < j < ranked.len() ==> (#[trigger] ranked[i]).1 >= (#[trigger] ranked[j]).1,
{
    let ghost entries = board_view(board@);
    let ghost mut order: Seq<int> = Seq::empty();
    let mut ranked: Vec<(String, i32)> = Vec::new();
    let mut k: usize = 0;
    while k < board.len()
        invariant
            k <= board.len(),
            entries == board_view(board@),
            order.len() == k,
            ranked.len() == k,
            forall|i: int| 0 <= i < k ==> 0 <= #[trigger] order[i] < k,
            forall|i: int, j: int|
                0 <= i < j < k ==> outranks(entries, #[trigger] order[i], #[trigger] order[j]),
            forall|i: int| 0 <= i < k ==> (#[trigger] ranked[i]).0@ == entries[order[i]].0,
            forall|i: int| 0 <= i < k ==> (#[trigger] ranked[i]).1 == entries[order[i]].1,
        decreases board.len() - k,
    {
        let score = board[k].1;
        let mut at: usize = 0;
        while at < ranked.len() && ranked[at].1 >= score
            invariant
                at <= ranked.len(),
                forall|j: int| 0 <= j < at ==> (#[trigger] ranked[j]).1 >= score,
            decreases ranked.len() - at,
        {
            at = at + 1;
        }
        let ghost before = order;
        let ghost listed = ranked@;
        ranked.insert(at, (board[k].0.clone(), score));
        proof {
            order = before.insert(at as int, k as int);
            assert forall|i: int, j: int| 0 <= i < j < k + 1 implies outranks(
                entries,
                #[trigger] order[i],
                #[trigger] order[j],
            ) by {
                if i == at {
                    assert(order[j] == before[j - 1]);
                    assert(listed[j - 1].1 == entries[before[j - 1]].1);
                    if j - 1 > at {
                        assert(outranks(entries, before[at as int], before[j - 1]));
                    }
                    assert(listed[at as int].1 == entries[before[at as int]].1);
                } else if j == at {
                    assert(order[i] == before[i]);
                    assert(listed[i].1 == entries[before[i]].1);
                } else {
                    let a = if i < at { i } else { i - 1 };
                    let b = if j < at { j } else { j - 1 };
                    assert(order[i] == before[a]);
                    assert(order[j] == before[b]);
                }
            }
            assert forall|i: int| 0 <= i < k + 1 implies (#[trigger] ranked[i]).0@
                == entries[order[i]].0 && ranked[i].1 == entries[order[i]].1 by {
                if i < at {
                    assert(ranked[i] == listed[i]);
                } else if i > at {
                    assert(ranked[i] == listed[i - 1]);
                }
            }
        }
        k = k + 1;
    }
    proof {
        assert(board_view(ranked@) =~= arranged(entries, order));
        assert(ranks(entries, order));
    }
    ranked
}

} // verus!
