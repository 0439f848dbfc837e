//! The ranking comparator over player snapshots and a verified sort into
//! final-standings order.

use vstd::prelude::*;
use vstd::relations::sorted_by;
use crate::order::{lex_leq, str_lt, lemma_lex_asymmetric, lemma_lex_connected,
    lemma_lex_transitive};
use crate::player::{Player, PlayerV};
use core::cmp::Ordering;

verus! {

/// Combined number of recorded games of a player's designated opponents.
pub open spec fn opp_games(p: PlayerV) -> int {
    p.opp_wins + p.opp_losses
}

/// The opponent win rate fits the machine comparison: the combined opponent
/// record does not exceed `u64::MAX` games.
pub open spec fn rate_bounded(p: PlayerV) -> bool {
    opp_games(p) <= u64::MAX
}

/// `a`'s opponent win rate is strictly below `b`'s. A player whose opponents
/// have no recorded games has an undefined rate, which sorts strictly below
/// every defined rate; two defined rates compare by cross-multiplication.
pub open spec fn rate_lt(a: PlayerV, b: PlayerV) -> bool {
    if opp_games(a) <= 0 {
        opp_games(b) > 0
    } else if opp_games(b) <= 0 {
        false
    } else {
        a.opp_wins * opp_games(b) < b.opp_wins * opp_games(a)
    }
}

/// The two opponent win rates are equal: both undefined, or both defined
/// and equal as fractions.
pub open spec fn rate_eq(a: PlayerV, b: PlayerV) -> bool {
    ||| (opp_games(a) <= 0 && opp_games(b) <= 0)
    ||| (opp_games(a) > 0 && opp_games(b) > 0 && a.opp_wins * opp_games(b) == b.opp_wins
        * opp_games(a))
}

/// `a` stands at or above `b` in the final standings: more wins first, then
/// the higher opponent win rate, then the lexicographically smaller name.
pub open spec fn rank_leq(a: PlayerV, b: PlayerV) -> bool {
    ||| b.wins < a.wins
    ||| (a.wins == b.wins && rate_lt(b, a))
    ||| (a.wins == b.wins && rate_eq(a, b) && lex_leq(a.name, b.name))
}

/// `a` stands strictly above `b` in the final standings.
pub open spec fn rank_before(a: PlayerV, b: PlayerV) -> bool {
    rank_leq(a, b) && !rank_leq(b, a)
}

/// The standings order as a relation, for `sorted_by`.
pub open spec fn rank_order() -> spec_fn(PlayerV, PlayerV) -> bool {
    |a: PlayerV, b: PlayerV| rank_leq(a, b)
}

/// Of two distinct rates, exactly one is below the other; equal rates are
/// equal both ways.
pub proof fn lemma_rate_trichotomy(a: PlayerV, b: PlayerV)
    ensures
        rate_lt(a, b) || rate_lt(b, a) || rate_eq(a, b),
        rate_lt(a, b) ==> !rate_lt(b, a) && !rate_eq(a, b),
        rate_eq(a, b) ==> rate_eq(b, a),
{
}

/// Rate comparison chains across three players.
pub proof fn lemma_rate_transitive(a: PlayerV, b: PlayerV, c: PlayerV)
    ensures
        rate_lt(a, b) && rate_lt(b, c) ==> rate_lt(a, c),
        rate_eq(a, b) && rate_eq(b, c) ==> rate_eq(a, c),
        rate_eq(a, b) && rate_lt(b, c) ==> rate_lt(a, c),
        rate_lt(a, b) && rate_eq(b, c) ==> rate_lt(a, c),
{
    let aw = a.opp_wins;
    let bw = b.opp_wins;
    let cw = c.opp_wins;
    let da = opp_games(a);
    let db = opp_games(b);
    let dc = opp_games(c);
    if da > 0 && db > 0 && dc > 0 {
        if aw * db < bw * da && bw * dc < cw * db {
            assert((aw * db) * dc < (bw * da) * dc) by (nonlinear_arith)
                requires
                    aw * db < bw * da,
                    dc > 0,
            ;
            assert((bw * dc) * da < (cw * db) * da) by (nonlinear_arith)
                requires
                    bw * dc < cw * db,
                    da > 0,
            ;
            assert((aw * dc) * db < (cw * da) * db) by (nonlinear_arith)
                requires
                    (aw * db) * dc < (bw * da) * dc,
                    (bw * dc) * da < (cw * db) * da,
            ;
            assert(aw * dc < cw * da) by (nonlinear_arith)
                requires
                    (aw * dc) * db < (cw * da) * db,
                    db > 0,
            ;
        }
        if aw * db == bw * da && bw * dc == cw * db {
            assert((aw * dc) * db == (cw * da) * db) by (nonlinear_arith)
                requires
                    aw * db == bw * da,
                    bw * dc == cw * db,
            ;
            assert(aw * dc == cw * da) by (nonlinear_arith)
                requires
                    (aw * dc) * db == (cw * da) * db,
                    db > 0,
            ;
        }
        if aw * db == bw * da && bw * dc < cw * db {
            assert((aw * dc) * db < (cw * da) * db) by (nonlinear_arith)
                requires
                    aw * db == bw * da,
                    bw * dc < cw * db,
                    da > 0,
            ;
            assert(aw * dc < cw * da) by (nonlinear_arith)
                requires
                    (aw * dc) * db < (cw * da) * db,
                    db > 0,
            ;
        }
        if aw * db < bw * da && bw * dc == cw * db {
            assert((aw * dc) * db < (cw * da) * db) by (nonlinear_arith)
                requires
                    aw * db < bw * da,
                    bw * dc == cw * db,
                    dc > 0,
            ;
            assert(aw * dc < cw * da) by (nonlinear_arith)
                requires
                    (aw * dc) * db < (cw * da) * db,
                    db > 0,
            ;
        }
    }
}

/// The standings order is total: any two players are comparable.
pub proof fn lemma_rank_total(a: PlayerV, b: PlayerV)
    ensures
        rank_leq(a, b) || rank_leq(b, a),
{
    lemma_rate_trichotomy(a, b);
    lemma_lex_asymmetric(a.name, b.name);
    lemma_lex_asymmetric(b.name, a.name);
}

/// Two players that stand at or above each other have equal wins, equal
/// rates and the same name.
pub proof fn lemma_rank_antisymmetric(a: PlayerV, b: PlayerV)
    ensures
        rank_leq(a, b) && rank_leq(b, a) ==> a.wins == b.wins && rate_eq(a, b) && a.name == b.name,
{
    lemma_rate_trichotomy(a, b);
    lemma_rate_trichotomy(b, a);
    lemma_lex_connected(a.name, b.name);
}

/// The standings order is transitive.
pub proof fn lemma_rank_transitive(a: PlayerV, b: PlayerV, c: PlayerV)
    ensures
        rank_leq(a, b) && rank_leq(b, c) ==> rank_leq(a, c),
{
    lemma_rate_trichotomy(a, b);
    lemma_rate_trichotomy(b, c);
    lemma_rate_trichotomy(a, c);
    lemma_rate_transitive(c, b, a);
    lemma_rate_transitive(a, b, c);
    lemma_rate_transitive(b, a, c);
    lemma_rate_transitive(a, c, b);
    lemma_lex_transitive(a.name, b.name, c.name);
    lemma_lex_asymmetric(a.name, b.name);
    lemma_lex_asymmetric(b.name, c.name);
    lemma_lex_asymmetric(a.name, c.name);
    lemma_lex_connected(a.name, b.name);
    lemma_lex_connected(b.name, c.name);
}

/// The product of two machine words fits in a double-width word.
proof fn lemma_mul_u64_fits(x: int, y: int) by (nonlinear_arith)
    requires
        0 <= x <= u64::MAX,
        0 <= y <= u64::MAX,
    ensures
        0 <= x * y <= u128::MAX,
{
}

/// Order two player records for ranking, lowest first: by total wins, then
/// by opponent win rate with the undefined rate lowest, then by name with
/// the lexicographically greater name lower. The enumeration driver reverses
/// this order to place the best player first.
pub fn rank_players(p1: &Player, p2: &Player) -> (r: Ordering)
    requires
        rate_bounded(p1@),
        rate_bounded(p2@),
    ensures
        r == Ordering::Greater <==> rank_before(p1@, p2@),
        r == Ordering::Less <==> rank_before(p2@, p1@),
        r == Ordering::Equal <==> (rank_leq(p1@, p2@) && rank_leq(p2@, p1@)),
{
    proof {
        lemma_rank_total(p1@, p2@);
        lemma_rate_trichotomy(p1@, p2@);
        lemma_rate_trichotomy(p2@, p1@);
        lemma_lex_asymmetric(p1@.name, p2@.name);
        lemma_lex_asymmetric(p2@.name, p1@.name);
        lemma_lex_connected(p1@.name, p2@.name);
    }
    if p1.wins < p2.wins {
        return Ordering::Less;
    }
    if p2.wins < p1.wins {
        return Ordering::Greater;
    }
    let d1 = p1.opp_wins + p1.opp_losses;
    let d2 = p2.opp_wins + p2.opp_losses;
    if d1 == 0 || d2 == 0 {
        if d1 == 0 && d2 != 0 {
            return Ordering::Less;
        }
        if d1 != 0 && d2 == 0 {
            return Ordering::Greater;
        }
    } else {
        proof {
            lemma_mul_u64_fits(p1.opp_wins as int, d2 as int);
            lemma_mul_u64_fits(p2.opp_wins as int, d1 as int);
        }
        let x1 = (p1.opp_wins as u128) * (d2 as u128);
        let x2 = (p2.opp_wins as u128) * (d1 as u128);
        if x1 < x2 {
            return Ordering::Less;
        }
        if x2 < x1 {
            return Ordering::Greater;
        }
    }
    if str_lt(&p1.name, &p2.name) {
        return Ordering::Greater;
    }
    if str_lt(&p2.name, &p1.name) {
        return Ordering::Less;
    }
    Ordering::Equal
}

/// The views of a roster of players.
pub open spec fn views(s: Seq<Player>) -> Seq<PlayerV> {
    s.map_values(|p: Player| p@)
}

/// Every player in the roster has a machine-comparable opponent record.
pub open spec fn rates_bounded(s: Seq<PlayerV>) -> bool {
    forall|k: int| 0 <= k < s.len() ==> rate_bounded(#[trigger] s[k])
}

/// Decide whether `a` stands strictly above `b` in the final standings.
fn ranks_strictly_before(a: &Player, b: &Player) -> (r: bool)
    requires
        rate_bounded(a@),
        rate_bounded(b@),
    ensures
        r == rank_before(a@, b@),
{
    let o = rank_players(a, b);
    match o {
        Ordering::Greater => true,
        _ => false,
    }
}

/// Sort the roster into final-standings order: best player first. The result
/// is sorted by the standings order and is a permutation of the input.
pub fn sort_players(v: &mut Vec<Player>)
    requires
        rates_bounded(views(old(v)@)),
    ensures
        sorted_by(views(final(v)@), rank_order()),
        views(final(v)@).to_multiset() == views(old(v)@).to_multiset(),
        final(v)@.len() == old(v)@.len(),
{
    broadcast use vstd::seq_lib::group_to_multiset_ensures;

    let n = v.len();
    let mut i: usize = 0;
    while i < n
        invariant
            n == v@.len(),
            i <= n,
            rates_bounded(views(v@)),
            views(v@).to_multiset() == views(old(v)@).to_multiset(),
            sorted_by(views(v@).take(i as int), rank_order()),
            forall|a: int, b: int|
                0 <= a < i <= b < n ==> #[trigger] rank_leq(views(v@)[a], views(v@)[b]),
        decreases n - i,
    {
        let mut m: usize = i;
        let mut k: usize = i + 1;
        proof {
            lemma_rank_total(views(v@)[i as int], views(v@)[i as int]);
        }
        while k < n
            invariant
                n == v@.len(),
                i <= m < k <= n,
                rates_bounded(views(v@)),
                forall|t: int| i <= t < k ==> #[trigger] rank_leq(views(v@)[m as int], views(v@)[t]),
            decreases n - k,
        {
            proof {
                assert(views(v@)[k as int] == v@[k as int]@);
                assert(views(v@)[m as int] == v@[m as int]@);
            }
            if ranks_strictly_before(&v[k], &v[m]) {
                proof {
                    assert forall|t: int| i <= t < k + 1 implies #[trigger] rank_leq(
                        views(v@)[k as int],
                        views(v@)[t],
                    ) by {
                        lemma_rank_total(views(v@)[k as int], views(v@)[k as int]);
                        if t < k {
                            lemma_rank_transitive(
                                views(v@)[k as int],
                                views(v@)[m as int],
                                views(v@)[t],
                            );
                        }
                    }
                }
                m = k;
            } else {
                proof {
                    lemma_rank_total(views(v@)[k as int], views(v@)[m as int]);
                }
            }
            k += 1;
        }
        let ghost before = views(v@);
        let x = v.remove(m);
        let ghost mid = views(v@);
        v.insert(i, x);
        proof {
            assert(mid =~= before.remove(m as int));
            assert(views(v@) =~= mid.insert(i as int, x@));
            assert(views(v@).to_multiset() == before.to_multiset()) by {
                broadcast use vstd::multiset::group_multiset_axioms;

                vstd::seq_lib::to_multiset_remove(before, m as int);
                vstd::seq_lib::to_multiset_insert(mid, i as int, x@);
                vstd::seq_lib::to_multiset_contains(before, x@);
                assert(before[m as int] == x@);
                assert(before.contains(x@));
                assert(before.to_multiset().remove(x@).insert(x@) =~= before.to_multiset());
            }
            assert(rates_bounded(views(v@))) by {
                assert forall|t: int| 0 <= t < views(v@).len() implies rate_bounded(
                    #[trigger] views(v@)[t],
                ) by {
                    if t < i {
                        assert(views(v@)[t] == before[t]);
                    } else if t == i {
                        assert(views(v@)[t] == before[m as int]);
                    } else if t <= m {
                        assert(views(v@)[t] == before[t - 1]);
                    } else {
                        assert(views(v@)[t] == before[t]);
                    }
                }
            }
            assert forall|a: int, b: int| 0 <= a < i + 1 <= b < n implies #[trigger] rank_leq(
                views(v@)[a],
                views(v@)[b],
            ) by {
                let w = views(v@);
                let ob = if b <= m { before[b - 1] } else { before[b] };
                assert(w[b] == ob);
                if a < i {
                    assert(w[a] == before[a]);
                    assert(rank_leq(before[a], ob));
                } else {
                    assert(w[a] == before[m as int]);
                    assert(rank_leq(before[m as int], ob));
                }
            }
            assert(sorted_by(views(v@).take(i + 1), rank_order())) by {
                let w = views(v@);
                assert forall|a: int, b: int| 0 <= a < b < i + 1 implies #[trigger] rank_order()(
                    w.take(i + 1)[a],
                    w.take(i + 1)[b],
                ) by {
                    assert(w.take(i + 1)[a] == w[a]);
                    assert(w.take(i + 1)[b] == w[b]);
                    if b < i {
                        assert(w[a] == before[a] && w[b] == before[b]);
                        assert(before.take(i as int)[a] == before[a]);
                        assert(before.take(i as int)[b] == before[b]);
                        assert(rank_order()(before[a], before[b]));
                    } else {
                        assert(b == i);
                        assert(w[a] == before[a]);
                        assert(w[b] == before[m as int]);
                        assert(rank_leq(before[a], before[m as int]));
                    }
                }
            }
        }
        i += 1;
    }
    proof {
        assert(views(v@).take(n as int) =~= views(v@));
    }
}

} // verus!
