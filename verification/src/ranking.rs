//! The ranking of a tournament's players at settlement: best average score
//! per game first.

use vstd::prelude::*;
use vstd::set_lib::{lemma_int_range, lemma_subset_equality, set_int_range};
use crate::types::{players_view, PlayerView, TournamentPlayer};

verus! {

/// What a player is ranked by: the score times one thousand, divided by the
/// number of games played and rounded down. A player who played no game has
/// no average and ranks below every player who played.
pub open spec fn rank_key(p: PlayerView) -> int {
    if p.number_of_games_played == 0 {
        -1
    } else {
        (p.score as int * 1000) / (p.number_of_games_played as int)
    }
}

/// The player at `a` ranks before the player at `b`: by a larger key, or by
/// the same key and an earlier place in the order of joining.
pub open spec fn ranks_before(players: Seq<PlayerView>, a: int, b: int) -> bool {
    rank_key(players[a]) > rank_key(players[b]) || (rank_key(players[a]) == rank_key(players[b])
        && a < b)
}

/// `order` lists the places of all of `players`, each before all those that
/// it ranks before.
pub open spec fn is_ranking(players: Seq<PlayerView>, order: Seq<usize>) -> bool {
    &&& order.len() == players.len()
    &&& forall|i: int| 0 <= i < order.len() ==> 0 <= #[trigger] order[i] < players.len()
    &&& forall|i: int, j: int|
        0 <= i < j < order.len() ==> ranks_before(players, order[i] as int, order[j] as int)
}

/// The ranking of `players`. There is exactly one, see
/// `lemma_ranking_is_unique` and `rank_players`.
pub open spec fn ranking_of(players: Seq<PlayerView>) -> Seq<usize> {
    choose|order: Seq<usize>| is_ranking(players, order)
}

/// Every place occurs in a ranking.
proof fn lemma_ranking_covers(players: Seq<PlayerView>, order: Seq<usize>, place: int)
    requires
        is_ranking(players, order),
        0 <= place < players.len(),
    ensures
        exists|i: int| 0 <= i < order.len() && order[i] == place,
{
    let n = players.len() as int;
    let places = order.map_values(|p: usize| p as int);
    assert forall|i: int, j: int| 0 <= i < j < places.len() implies places[i] != places[j] by {
        assert(ranks_before(players, order[i] as int, order[j] as int));
    }
    assert(places.no_duplicates());
    places.unique_seq_to_set();
    lemma_int_range(0, n);
    assert forall|x: int| places.to_set().contains(x) implies set_int_range(0, n).contains(x) by {
        let i = choose|i: int| 0 <= i < places.len() && places[i] == x;
        assert(0 <= order[i] < n);
    }
    assert(places.to_set().subset_of(set_int_range(0, n)));
    assert(places.to_set().finite()) by {
        vstd::set_lib::lemma_len_subset(places.to_set(), set_int_range(0, n));
    }
    lemma_subset_equality(places.to_set(), set_int_range(0, n));
    assert(set_int_range(0, n).contains(place));
    assert(places.to_set().contains(place));
    let i = choose|i: int| 0 <= i < places.len() && places[i] == place;
    assert(order[i] == place);
}

/// The players determine their ranking: two rankings of the same players
/// are the same.
pub proof fn lemma_ranking_is_unique(players: Seq<PlayerView>, a: Seq<usize>, b: Seq<usize>)
    requires
        is_ranking(players, a),
        is_ranking(players, b),
    ensures
        a == b,
{
    assert forall|k: int| 0 <= k < a.len() implies a[k] == b[k] by {
        lemma_ranking_agrees(players, a, b, k);
    }
    assert(a =~= b);
}

/// Two rankings of the same players agree at `k` and before it.
proof fn lemma_ranking_agrees(players: Seq<PlayerView>, a: Seq<usize>, b: Seq<usize>, k: int)
    requires
        is_ranking(players, a),
        is_ranking(players, b),
        0 <= k < a.len(),
    ensures
        forall|i: int| 0 <= i <= k ==> a[i] == b[i],
    decreases k,
{
    if k > 0 {
        lemma_ranking_agrees(players, a, b, k - 1);
    }
    if a[k] != b[k] {
        lemma_ranking_covers(players, b, a[k] as int);
        let m = choose|i: int| 0 <= i < b.len() && b[i] == a[k] as int;
        lemma_ranking_covers(players, a, b[k] as int);
        let l = choose|i: int| 0 <= i < a.len() && a[i] == b[k] as int;
        // Neither can stand before `k`, where the two agree; so each ranks
        // before the other.
        if m < k {
            assert(a[m] == b[m]);
            assert(ranks_before(players, a[m] as int, a[k] as int));
        }
        if l < k {
            assert(a[l] == b[l]);
            assert(ranks_before(players, b[l] as int, b[k] as int));
        }
        assert(ranks_before(players, b[k] as int, b[m] as int));
        assert(ranks_before(players, a[k] as int, a[l] as int));
    }
}

/// The rank key of a player, moved up by one so that it is never negative.
pub fn rank_key_of(p: &TournamentPlayer) -> (r: u128)
    ensures
        r == rank_key(p@) + 1,
{
    if p.number_of_games_played == 0 {
        0
    } else {
        let s: u128 = p.score as u128;
        let g: u128 = p.number_of_games_played as u128;
        assert(0 <= (s as int * 1000) / (g as int) <= s as int * 1000) by (nonlinear_arith)
            requires
                g > 0,
                s >= 0,
        ;
        (s * 1000) / g + 1
    }
}

/// Ranks the players: the result lists their places, best first; players
/// with the same key keep the order in which they joined.
pub fn rank_players(players: &Vec<TournamentPlayer>) -> (order: Vec<usize>)
    ensures
        is_ranking(players_view(players@), order@),
        order@ == ranking_of(players_view(players@)),
{
    let ghost pv = players_view(players@);
    let n: usize = players.len();
    let mut order: Vec<usize> = Vec::new();
    let mut i: usize = 0;
    while i < n
        invariant
            i <= n,
            n == players.len(),
            pv == players_view(players@),
            order.len() == i,
            forall|a: int| 0 <= a < i ==> 0 <= #[trigger] order[a] < i,
            forall|a: int, b: int|
                0 <= a < b < i ==> ranks_before(pv, order[a] as int, order[b] as int),
        decreases n - i,
    {
        let k: u128 = rank_key_of(&players[i]);
        let mut pos: usize = 0;
        while pos < order.len() && rank_key_of(&players[order[pos]]) >= k
            invariant
                pos <= order.len(),
                order.len() == i,
                i < n,
                n == players.len(),
                pv == players_view(players@),
                k == rank_key(pv[i as int]) + 1,
                forall|a: int| 0 <= a < i ==> 0 <= #[trigger] order[a] < i,
                forall|a: int| 0 <= a < pos ==> rank_key(pv[order[a] as int]) >= rank_key(pv[i as int]),
            decreases order.len() - pos,
        {
            pos = pos + 1;
        }
        let ghost before = order@;
        order.insert(pos, i);
        proof {
            let after = order@;
            assert forall|a: int, b: int| 0 <= a < b < i + 1 implies ranks_before(
                pv,
                after[a] as int,
                after[b] as int,
            ) by {
                if a == pos {
                    assert(after[b] == before[b - 1]);
                    if pos < b - 1 {
                        assert(ranks_before(pv, before[pos as int] as int, before[b - 1] as int));
                    }
                } else if b == pos {
                    assert(after[a] == before[a]);
                } else {
                    let a0 = if a < pos { a } else { a - 1 };
                    let b0 = if b < pos { b } else { b - 1 };
                    assert(after[a] == before[a0]);
                    assert(after[b] == before[b0]);
                    assert(ranks_before(pv, before[a0] as int, before[b0] as int));
                }
            }
            assert forall|a: int| 0 <= a < i + 1 implies 0 <= #[trigger] after[a] < i + 1 by {
                if a < pos {
                    assert(after[a] == before[a]);
                } else if a > pos {
                    assert(after[a] == before[a - 1]);
                }
            }
        }
        i = i + 1;
    }
    proof {
        lemma_ranking_is_unique(pv, order@, ranking_of(pv));
    }
    order
}

} // verus!
