//! The enumeration engine: outcome resolution, win/loss propagation across
//! two relationship hops, per-outcome ranking, and placement aggregation.

use vstd::prelude::*;
use vstd::multiset::Multiset;
use vstd::relations::sorted_by;
use crate::matches::{Match, MatchV, match_views};
use crate::order::str_eq;
use crate::player::{Player, PlayerV, clone_player, plc_bump, plc_counts_le, plc_total,
    lemma_plc_bump_total, lemma_plc_bump_counts};
use crate::ranking::{views, rank_leq, rank_order, rates_bounded, rate_bounded, sort_players,
    lemma_rank_total, lemma_rank_transitive, lemma_rank_antisymmetric};

verus! {

/// Index of the first player with name `n`, or -1 when no player has it.
pub open spec fn find_name(s: Seq<PlayerV>, n: Seq<char>) -> int
    decreases s.len(),
{
    if s.len() == 0 {
        -1
    } else if s[0].name == n {
        0
    } else {
        let t = find_name(s.drop_first(), n);
        if t < 0 {
            -1
        } else {
            t + 1
        }
    }
}

/// Some player in the roster carries name `n`.
pub open spec fn contains_name(s: Seq<PlayerV>, n: Seq<char>) -> bool {
    find_name(s, n) >= 0
}

/// `find_name` returns either -1 with no holder of the name, or the first
/// index holding it.
pub proof fn lemma_find_name(s: Seq<PlayerV>, n: Seq<char>)
    ensures
        find_name(s, n) < 0 ==> forall|k: int| 0 <= k < s.len() ==> (#[trigger] s[k]).name != n,
        find_name(s, n) >= 0 ==> {
            &&& find_name(s, n) < s.len()
            &&& s[find_name(s, n)].name == n
            &&& forall|k: int| 0 <= k < find_name(s, n) ==> (#[trigger] s[k]).name != n
        },
    decreases s.len(),
{
    if s.len() > 0 && s[0].name != n {
        lemma_find_name(s.drop_first(), n);
        assert(forall|k: int| 1 <= k < s.len() ==> s[k] == s.drop_first()[k - 1]);
    }
}

/// All player names in the roster are distinct.
pub open spec fn names_unique(s: Seq<PlayerV>) -> bool {
    forall|i: int, j: int|
        0 <= i < j < s.len() ==> (#[trigger] s[i]).name != (#[trigger] s[j]).name
}

/// Every player lists exactly four designated opponents.
pub open spec fn opps4(s: Seq<PlayerV>) -> bool {
    forall|k: int| 0 <= k < s.len() ==> (#[trigger] s[k]).opponents.len() == 4
}

/// Every stat leaves `slack` headroom below the machine bound, and the
/// combined opponent record leaves twice that, so that `slack` more matches
/// can be propagated without overflow.
pub open spec fn stats_ok(s: Seq<PlayerV>, slack: int) -> bool {
    forall|k: int|
        0 <= k < s.len() ==> {
            let p = #[trigger] s[k];
            &&& 0 <= p.wins && p.wins + slack <= u64::MAX
            &&& 0 <= p.losses && p.losses + slack <= u64::MAX
            &&& 0 <= p.opp_wins
            &&& 0 <= p.opp_losses
            &&& p.opp_wins + p.opp_losses + 2 * slack <= u64::MAX
        }
}

/// Every placement count in the roster is at most `c`.
pub open spec fn plc_all_le(s: Seq<PlayerV>, c: int) -> bool {
    forall|k: int|
        0 <= k < s.len() ==> plc_counts_le((#[trigger] s[k]).placements, c)
}

/// No placements have been recorded yet.
pub open spec fn plc_all_empty(s: Seq<PlayerV>) -> bool {
    forall|k: int| 0 <= k < s.len() ==> (#[trigger] s[k]).placements.len() == 0
}

/// How often name `n` occurs in an opponent list.
pub open spec fn count_occ(l: Seq<Seq<char>>, n: Seq<char>) -> int
    decreases l.len(),
{
    if l.len() == 0 {
        0
    } else {
        (if l[0] == n {
            1int
        } else {
            0int
        }) + count_occ(l.drop_first(), n)
    }
}

/// A count of occurrences lies between 0 and the list length.
pub proof fn lemma_count_occ_bounds(l: Seq<Seq<char>>, n: Seq<char>)
    ensures
        0 <= count_occ(l, n) <= l.len(),
    decreases l.len(),
{
    if l.len() > 0 {
        lemma_count_occ_bounds(l.drop_first(), n);
    }
}

proof fn lemma_count_occ_push(l: Seq<Seq<char>>, x: Seq<char>, n: Seq<char>)
    ensures
        count_occ(l.push(x), n) == count_occ(l, n) + (if x == n {
            1int
        } else {
            0int
        }),
    decreases l.len(),
{
    if l.len() == 0 {
        assert(l.push(x)[0] == x);
        assert(l.push(x).drop_first() =~= Seq::<Seq<char>>::empty());
        assert(count_occ(l.push(x).drop_first(), n) == 0);
    } else {
        lemma_count_occ_push(l.drop_first(), x, n);
        assert(l.push(x)[0] == l[0]);
        assert(l.push(x).drop_first() =~= l.drop_first().push(x));
    }
}

/// Scanning one more list entry adds one occurrence exactly when that entry
/// is the name.
pub proof fn lemma_count_occ_take_step(l: Seq<Seq<char>>, n: Seq<char>, j: int)
    requires
        0 <= j < l.len(),
    ensures
        count_occ(l.take(j + 1), n) == count_occ(l.take(j), n) + (if l[j] == n {
            1int
        } else {
            0int
        }),
{
    assert(l.take(j + 1) =~= l.take(j).push(l[j]));
    lemma_count_occ_push(l.take(j), l[j], n);
}

/// The opponent list of the named player, or empty when the player is
/// unknown: propagation to an unknown player is silently skipped.
pub open spec fn opps_of(s: Seq<PlayerV>, n: Seq<char>) -> Seq<Seq<char>> {
    if find_name(s, n) >= 0 {
        s[find_name(s, n)].opponents
    } else {
        Seq::<Seq<char>>::empty()
    }
}

/// One match with its outcome decided: who won and who lost.
pub ghost struct Resolved {
    pub winner: Seq<char>,
    pub loser: Seq<char>,
}

/// One player's record after one resolved match is propagated: the winner
/// gains a win, the loser a loss, and each occurrence of the player in the
/// winner's (loser's) opponent list adds one opponent win (loss).
pub open spec fn bump_one(p: PlayerV, r: Resolved, wopps: Seq<Seq<char>>, lopps: Seq<Seq<char>>) -> PlayerV {
    PlayerV {
        wins: p.wins + (if p.name == r.winner {
            1int
        } else {
            0int
        }),
        losses: p.losses + (if p.name == r.loser {
            1int
        } else {
            0int
        }),
        opp_wins: p.opp_wins + count_occ(wopps, p.name),
        opp_losses: p.opp_losses + count_occ(lopps, p.name),
        ..p
    }
}

/// The snapshot after one resolved match is propagated to every player.
pub open spec fn apply_one(s: Seq<PlayerV>, r: Resolved) -> Seq<PlayerV> {
    s.map_values(|p: PlayerV| bump_one(p, r, opps_of(s, r.winner), opps_of(s, r.loser)))
}

/// The snapshot after a list of resolved matches is propagated in order.
pub open spec fn apply_all(s: Seq<PlayerV>, rs: Seq<Resolved>) -> Seq<PlayerV>
    decreases rs.len(),
{
    if rs.len() == 0 {
        s
    } else {
        apply_all(apply_one(s, rs[0]), rs.drop_first())
    }
}

/// Propagating one more match extends a propagated prefix.
pub proof fn lemma_apply_all_take_step(s: Seq<PlayerV>, rs: Seq<Resolved>, j: int)
    requires
        0 <= j < rs.len(),
    ensures
        apply_all(s, rs.take(j + 1)) == apply_one(apply_all(s, rs.take(j)), rs[j]),
    decreases j,
{
    if j == 0 {
        assert(rs.take(0) =~= Seq::<Resolved>::empty());
        assert(rs.take(1) =~= Seq::<Resolved>::empty().push(rs[0]));
        assert(rs.take(1)[0] == rs[0]);
        assert(rs.take(1).drop_first() =~= Seq::<Resolved>::empty());
        assert(apply_all(s, rs.take(0)) == s);
        assert(apply_all(apply_one(s, rs[0]), rs.take(1).drop_first()) == apply_one(s, rs[0]));
        assert(apply_all(s, rs.take(1)) == apply_one(s, rs[0]));
    } else {
        lemma_apply_all_take_step(apply_one(s, rs[0]), rs.drop_first(), j - 1);
        assert(rs.take(j + 1)[0] == rs[0]);
        assert(rs.take(j + 1).drop_first() =~= rs.drop_first().take(j));
        assert(rs.take(j)[0] == rs[0]);
        assert(rs.take(j).drop_first() =~= rs.drop_first().take(j - 1));
        assert(rs.drop_first()[j - 1] == rs[j]);
        assert(apply_all(s, rs.take(j + 1)) == apply_all(apply_one(s, rs[0]), rs.drop_first().take(j)));
        assert(apply_all(s, rs.take(j)) == apply_all(apply_one(s, rs[0]), rs.drop_first().take(j - 1)));
    }
}

/// Propagation changes only the four counters: names, opponent lists and
/// placements stay, and each stat grows by at most its bound per match.
pub proof fn lemma_apply_one_preserves(s: Seq<PlayerV>, r: Resolved, slack: int)
    ensures
        apply_one(s, r).len() == s.len(),
        forall|k: int|
            0 <= k < s.len() ==> {
                let q = #[trigger] apply_one(s, r)[k];
                &&& q.name == s[k].name
                &&& q.opponents == s[k].opponents
                &&& q.placements == s[k].placements
            },
        names_unique(s) ==> names_unique(apply_one(s, r)),
        opps4(s) ==> opps4(apply_one(s, r)),
        plc_all_empty(s) ==> plc_all_empty(apply_one(s, r)),
        opps4(s) && stats_ok(s, slack) && slack >= 4 ==> stats_ok(apply_one(s, r), slack - 4),
{
    let w = opps_of(s, r.winner);
    let l = opps_of(s, r.loser);
    lemma_find_name(s, r.winner);
    lemma_find_name(s, r.loser);
    lemma_count_occ_bounds(w, r.winner);
    lemma_count_occ_bounds(l, r.loser);
    assert forall|k: int| 0 <= k < s.len() implies {
        let q = #[trigger] apply_one(s, r)[k];
        &&& q.name == s[k].name
        &&& q.opponents == s[k].opponents
        &&& q.placements == s[k].placements
        &&& q.wins <= s[k].wins + 1
        &&& q.losses <= s[k].losses + 1
        &&& s[k].wins <= q.wins
        &&& s[k].losses <= q.losses
        &&& s[k].opp_wins <= q.opp_wins
        &&& s[k].opp_losses <= q.opp_losses
        &&& q.opp_wins <= s[k].opp_wins + w.len()
        &&& q.opp_losses <= s[k].opp_losses + l.len()
    } by {
        lemma_count_occ_bounds(w, s[k].name);
        lemma_count_occ_bounds(l, s[k].name);
    }
    if opps4(s) {
        assert(w.len() <= 4);
        assert(l.len() <= 4);
    }
}

/// One player's record part-way through propagating a single match: the win
/// and loss bumps may each be applied or not yet, and only a prefix of each
/// opponent list has been walked.
pub open spec fn stage(
    p: PlayerV,
    r: Resolved,
    w_applied: bool,
    wops: Seq<Seq<char>>,
    l_applied: bool,
    lops: Seq<Seq<char>>,
) -> PlayerV {
    PlayerV {
        wins: p.wins + (if w_applied && p.name == r.winner {
            1int
        } else {
            0int
        }),
        losses: p.losses + (if l_applied && p.name == r.loser {
            1int
        } else {
            0int
        }),
        opp_wins: p.opp_wins + count_occ(wops, p.name),
        opp_losses: p.opp_losses + count_occ(lops, p.name),
        ..p
    }
}

/// Find the index of the player with the given name, if any.
pub fn find_player(v: &Vec<Player>, name: &String) -> (r: Option<usize>)
    ensures
        (match r {
            Option::Some(i) => i < v@.len() && find_name(views(v@), name@) == i as int,
            Option::None => find_name(views(v@), name@) == -1,
        }),
{
    let ghost s = views(v@);
    proof {
        lemma_find_name(s, name@);
    }
    let n = v.len();
    let mut i: usize = 0;
    while i < n
        invariant
            n == v@.len(),
            s == views(v@),
            i <= n,
            forall|k: int| 0 <= k < i ==> (#[trigger] s[k]).name != name@,
        decreases n - i,
    {
        proof {
            assert(s[i as int] == v@[i as int]@);
        }
        if str_eq(&v[i].name, name) {
            proof {
                lemma_find_name(s, name@);
                assert(s[i as int].name == name@);
                let f = find_name(s, name@);
                if f < 0 {
                    assert(s[i as int].name != name@);
                }
                if 0 <= f < i as int {
                    assert(s[f].name != name@);
                }
                if f > i as int {
                    assert(s[i as int].name != name@);
                }
            }
            return Some(i);
        }
        i += 1;
    }
    proof {
        lemma_find_name(s, name@);
        let f = find_name(s, name@);
        if f >= 0 {
            assert(s[f].name != name@);
        }
    }
    None
}

/// Produce an independent copy of the roster; views are equal.
pub fn clone_registry(v: &Vec<Player>) -> (r: Vec<Player>)
    ensures
        views(r@) == views(v@),
{
    let mut r: Vec<Player> = Vec::new();
    let n = v.len();
    let mut i: usize = 0;
    while i < n
        invariant
            n == v@.len(),
            i <= n,
            r@.len() == i,
            forall|k: int| 0 <= k < i ==> (#[trigger] r@[k])@ == v@[k]@,
        decreases n - i,
    {
        r.push(clone_player(&v[i]));
        i += 1;
    }
    proof {
        assert(views(r@) =~= views(v@));
    }
    r
}

/// Produce an independent copy of a list of names; views are equal.
fn clone_names(v: &Vec<String>) -> (r: Vec<String>)
    ensures
        r@.map_values(|s: String| s@) == v@.map_values(|s: String| s@),
{
    let mut r: Vec<String> = Vec::new();
    let n = v.len();
    let mut i: usize = 0;
    while i < n
        invariant
            n == v@.len(),
            i <= n,
            r@.len() == i,
            forall|k: int| 0 <= k < i ==> (#[trigger] r@[k])@ == v@[k]@,
        decreases n - i,
    {
        r.push(v[i].clone());
        i += 1;
    }
    proof {
        assert(r@.map_values(|s: String| s@) =~= v@.map_values(|s: String| s@));
    }
    r
}

/// Propagate one decided match through the snapshot: the winner gains a win
/// and every entry of the winner's opponent list gains an opponent win;
/// symmetrically for the loser. Unknown names are silently skipped.
pub fn apply_match(snapshot: &mut Vec<Player>, winner: &String, loser: &String)
    requires
        names_unique(views(old(snapshot)@)),
        opps4(views(old(snapshot)@)),
        stats_ok(views(old(snapshot)@), 4),
    ensures
        views(final(snapshot)@) == apply_one(
            views(old(snapshot)@),
            (Resolved { winner: winner@, loser: loser@ }),
        ),
{
    let ghost s0 = views(snapshot@);
    let ghost r = Resolved { winner: winner@, loser: loser@ };
    let ghost emp = Seq::<Seq<char>>::empty();

    let wopps: Vec<String> = match find_player(snapshot, winner) {
        Some(wi) => {
            proof {
                lemma_find_name(s0, r.winner);
            }
            let mut p = snapshot.remove(wi);
            proof {
                assert(p@ == s0[wi as int]);
                assert(p@.wins + 4 <= u64::MAX);
            }
            p.add_win();
            let o = clone_names(&p.opponents);
            let ghost pv = p@;
            snapshot.insert(wi, p);
            proof {
                assert(views(snapshot@) =~= s0.update(wi as int, pv));
                assert forall|k: int| 0 <= k < s0.len() implies #[trigger] views(snapshot@)[k]
                    == stage(s0[k], r, true, emp, false, emp) by {
                    assert(count_occ(emp, s0[k].name) == 0);
                    if k != wi as int {
                        if s0[k].name == r.winner {
                            assert(s0[wi as int].name == r.winner);
                            assert(false);
                        }
                    }
                }
                assert(o@.map_values(|x: String| x@) == opps_of(s0, r.winner));
            }
            o
        },
        None => {
            proof {
                lemma_find_name(s0, r.winner);
                assert forall|k: int| 0 <= k < s0.len() implies #[trigger] views(snapshot@)[k]
                    == stage(s0[k], r, true, emp, false, emp) by {
                    assert(count_occ(emp, s0[k].name) == 0);
                    assert(s0[k].name != r.winner);
                }
            }
            Vec::new()
        },
    };
    let ghost wv = wopps@.map_values(|x: String| x@);
    proof {
        assert(wv.take(0) =~= emp);
        if find_name(s0, r.winner) >= 0 {
            lemma_find_name(s0, r.winner);
            assert(wv.len() == 4);
        } else {
            assert(wv =~= emp);
        }
    }

    let wn = wopps.len();
    let mut j: usize = 0;
    while j < wn
        invariant
            s0 == views(old(snapshot)@),
            names_unique(s0),
            opps4(s0),
            stats_ok(s0, 4),
            r == (Resolved { winner: winner@, loser: loser@ }),
            emp == Seq::<Seq<char>>::empty(),
            wn == wopps@.len(),
            j <= wn,
            wv == wopps@.map_values(|x: String| x@),
            wv == opps_of(s0, r.winner),
            wv.len() <= 4,
            views(snapshot@).len() == s0.len(),
            forall|k: int|
                0 <= k < s0.len() ==> #[trigger] views(snapshot@)[k] == stage(
                    s0[k],
                    r,
                    true,
                    wv.take(j as int),
                    false,
                    emp,
                ),
        decreases wn - j,
    {
        let ghost cur = views(snapshot@);
        proof {
            assert(wopps@[j as int]@ == wv[j as int]);
        }
        match find_player(snapshot, &wopps[j]) {
            Some(oi) => {
                proof {
                    lemma_find_name(cur, wv[j as int]);
                    assert(cur[oi as int].name == wv[j as int]);
                    assert(s0[oi as int].name == wv[j as int]);
                    lemma_count_occ_bounds(wv.take(j as int), s0[oi as int].name);
                }
                let mut q = snapshot.remove(oi);
                proof {
                    assert(q@ == cur[oi as int]);
                    assert(q@.opp_wins < u64::MAX);
                }
                q.add_opponent_win();
                let ghost qv = q@;
                snapshot.insert(oi, q);
                proof {
                    assert(views(snapshot@) =~= cur.update(oi as int, qv));
                    assert forall|k: int| 0 <= k < s0.len() implies #[trigger] views(snapshot@)[k]
                        == stage(s0[k], r, true, wv.take(j as int + 1), false, emp) by {
                        lemma_count_occ_take_step(wv, s0[k].name, j as int);
                        if k != oi as int {
                            if s0[k].name == wv[j as int] {
                                assert(s0[k].name == s0[oi as int].name);
                                assert(false);
                            }
                        }
                    }
                }
            },
            None => {
                proof {
                    lemma_find_name(cur, wv[j as int]);
                    assert forall|k: int| 0 <= k < s0.len() implies #[trigger] views(snapshot@)[k]
                        == stage(s0[k], r, true, wv.take(j as int + 1), false, emp) by {
                        lemma_count_occ_take_step(wv, s0[k].name, j as int);
                        assert(cur[k].name == s0[k].name);
                        assert(cur[k].name != wv[j as int]);
                    }
                }
            },
        }
        j += 1;
    }
    proof {
        assert(wv.take(wn as int) =~= wv);
    }

    let lopps: Vec<String> = match find_player(snapshot, loser) {
        Some(li) => {
            let ghost cur = views(snapshot@);
            proof {
                lemma_find_name(cur, loser@);
                assert(cur[li as int].name == loser@);
                assert(s0[li as int].name == r.loser);
                lemma_find_name(s0, r.loser);
                let f = find_name(s0, r.loser);
                if f < 0 {
                    assert(s0[li as int].name != r.loser);
                }
                if f != li as int {
                    assert(s0[f].name == s0[li as int].name);
                    assert(false);
                }
            }
            let mut p = snapshot.remove(li);
            proof {
                assert(p@ == cur[li as int]);
                assert(p@.losses < u64::MAX);
            }
            p.add_loss();
            let o = clone_names(&p.opponents);
            let ghost pv = p@;
            snapshot.insert(li, p);
            proof {
                assert(views(snapshot@) =~= cur.update(li as int, pv));
                assert forall|k: int| 0 <= k < s0.len() implies #[trigger] views(snapshot@)[k]
                    == stage(s0[k], r, true, wv, true, emp) by {
                    if k != li as int {
                        if s0[k].name == r.loser {
                            assert(s0[k].name == s0[li as int].name);
                            assert(false);
                        }
                    }
                }
                assert(o@.map_values(|x: String| x@) == opps_of(s0, r.loser));
            }
            o
        },
        None => {
            let ghost cur = views(snapshot@);
            proof {
                lemma_find_name(cur, loser@);
                lemma_find_name(s0, r.loser);
                let f = find_name(s0, r.loser);
                if f >= 0 {
                    assert(cur[f].name == s0[f].name);
                    assert(cur[f].name != loser@);
                    assert(false);
                }
                assert forall|k: int| 0 <= k < s0.len() implies #[trigger] views(snapshot@)[k]
                    == stage(s0[k], r, true, wv, true, emp) by {
                    assert(cur[k].name == s0[k].name);
                    assert(cur[k].name != loser@);
                }
            }
            Vec::new()
        },
    };
    let ghost lv = lopps@.map_values(|x: String| x@);
    proof {
        assert(lv.take(0) =~= emp);
        if find_name(s0, r.loser) >= 0 {
            lemma_find_name(s0, r.loser);
            assert(lv.len() == 4);
        } else {
            assert(lv =~= emp);
        }
    }

    let ln = lopps.len();
    let mut j2: usize = 0;
    while j2 < ln
        invariant
            s0 == views(old(snapshot)@),
            names_unique(s0),
            opps4(s0),
            stats_ok(s0, 4),
            r == (Resolved { winner: winner@, loser: loser@ }),
            emp == Seq::<Seq<char>>::empty(),
            ln == lopps@.len(),
            j2 <= ln,
            lv == lopps@.map_values(|x: String| x@),
            lv == opps_of(s0, r.loser),
            lv.len() <= 4,
            wv == opps_of(s0, r.winner),
            wv.len() <= 4,
            views(snapshot@).len() == s0.len(),
            forall|k: int|
                0 <= k < s0.len() ==> #[trigger] views(snapshot@)[k] == stage(
                    s0[k],
                    r,
                    true,
                    wv,
                    true,
                    lv.take(j2 as int),
                ),
        decreases ln - j2,
    {
        let ghost cur = views(snapshot@);
        proof {
            assert(lopps@[j2 as int]@ == lv[j2 as int]);
        }
        match find_player(snapshot, &lopps[j2]) {
            Some(oi) => {
                proof {
                    lemma_find_name(cur, lv[j2 as int]);
                    assert(cur[oi as int].name == lv[j2 as int]);
                    assert(s0[oi as int].name == lv[j2 as int]);
                    lemma_count_occ_bounds(lv.take(j2 as int), s0[oi as int].name);
                    lemma_count_occ_bounds(wv, s0[oi as int].name);
                }
                let mut q = snapshot.remove(oi);
                proof {
                    assert(q@ == cur[oi as int]);
                    assert(q@.opp_losses < u64::MAX);
                }
                q.add_opponent_loss();
                let ghost qv = q@;
                snapshot.insert(oi, q);
                proof {
                    assert(views(snapshot@) =~= cur.update(oi as int, qv));
                    assert forall|k: int| 0 <= k < s0.len() implies #[trigger] views(snapshot@)[k]
                        == stage(s0[k], r, true, wv, true, lv.take(j2 as int + 1)) by {
                        lemma_count_occ_take_step(lv, s0[k].name, j2 as int);
                        if k != oi as int {
                            if s0[k].name == lv[j2 as int] {
                                assert(s0[k].name == s0[oi as int].name);
                                assert(false);
                            }
                        }
                    }
                }
            },
            None => {
                proof {
                    lemma_find_name(cur, lv[j2 as int]);
                    assert forall|k: int| 0 <= k < s0.len() implies #[trigger] views(snapshot@)[k]
                        == stage(s0[k], r, true, wv, true, lv.take(j2 as int + 1)) by {
                        lemma_count_occ_take_step(lv, s0[k].name, j2 as int);
                        assert(cur[k].name == s0[k].name);
                        assert(cur[k].name != lv[j2 as int]);
                    }
                }
            },
        }
        j2 += 1;
    }
    proof {
        assert(lv.take(ln as int) =~= lv);
        assert forall|k: int| 0 <= k < s0.len() implies #[trigger] views(snapshot@)[k]
            == apply_one(s0, r)[k] by {
            assert(apply_one(s0, r)[k] == bump_one(s0[k], r, opps_of(s0, r.winner), opps_of(s0, r.loser)));
            assert(views(snapshot@)[k] == stage(s0[k], r, true, wv, true, lv));
        }
        assert(views(snapshot@) =~= apply_one(s0, r));
    }
}

/// The smaller of two values.
pub open spec fn imin(a: int, b: int) -> int {
    if a <= b {
        a
    } else {
        b
    }
}

/// Index of the entry that the standings place first, scanning from the
/// front so that the choice is deterministic.
pub open spec fn min_index(s: Seq<PlayerV>) -> int
    decreases s.len(),
{
    if s.len() <= 1 {
        0
    } else {
        let m = min_index(s.drop_first()) + 1;
        if rank_leq(s[0], s[m]) {
            0
        } else {
            m
        }
    }
}

/// The front-most ranking minimum is in range and ranks at or above all.
pub proof fn lemma_min_index(s: Seq<PlayerV>)
    requires
        s.len() > 0,
    ensures
        0 <= min_index(s) < s.len(),
        forall|t: int| 0 <= t < s.len() ==> rank_leq(s[min_index(s)], #[trigger] s[t]),
    decreases s.len(),
{
    if s.len() == 1 {
        lemma_rank_total(s[0], s[0]);
    } else {
        lemma_min_index(s.drop_first());
        let md = min_index(s.drop_first());
        let m = md + 1;
        assert(s.drop_first()[md] == s[m]);
        lemma_rank_total(s[0], s[m]);
        assert forall|t: int| 0 <= t < s.len() implies rank_leq(s[min_index(s)], #[trigger] s[t]) by {
            if t == 0 {
                lemma_rank_total(s[0], s[0]);
                if min_index(s) == m {
                    assert(rank_leq(s[m], s[0]));
                }
            } else {
                assert(s.drop_first()[t - 1] == s[t]);
                assert(rank_leq(s.drop_first()[md], s.drop_first()[t - 1]));
                if min_index(s) == 0 {
                    lemma_rank_transitive(s[0], s[m], s[t]);
                }
            }
        }
    }
}

/// The full standings of a snapshot: every player, best first, by the
/// ranking order, ties broken deterministically.
pub open spec fn sort_spec(s: Seq<PlayerV>) -> Seq<PlayerV>
    decreases s.len(),
{
    if s.len() == 0 {
        s
    } else {
        let m0 = min_index(s);
        let m = if 0 <= m0 < s.len() {
            m0
        } else {
            0
        };
        seq![s[m]] + sort_spec(s.remove(m))
    }
}

/// The standings list every player once: it is sorted by the ranking order
/// and is a permutation of the snapshot.
pub proof fn lemma_sort_spec_ensures(s: Seq<PlayerV>)
    ensures
        sort_spec(s).len() == s.len(),
        sorted_by(sort_spec(s), rank_order()),
        sort_spec(s).to_multiset() == s.to_multiset(),
    decreases s.len(),
{
    broadcast use vstd::seq_lib::group_to_multiset_ensures;
    broadcast use vstd::multiset::group_multiset_axioms;

    if s.len() > 0 {
        lemma_min_index(s);
        let m = min_index(s);
        let rest = s.remove(m);
        lemma_sort_spec_ensures(rest);
        let sorted = sort_spec(s);
        assert(sorted == seq![s[m]] + sort_spec(rest));
        assert(sorted.len() == s.len());
        // Permutation.
        assert(rest.to_multiset() == s.to_multiset().remove(s[m]));
        assert(seq![s[m]] =~= Seq::<PlayerV>::empty().push(s[m]));
        vstd::seq_lib::lemma_multiset_commutative(seq![s[m]], sort_spec(rest));
        assert(Seq::<PlayerV>::empty().push(s[m]).to_multiset() =~= Seq::<
            PlayerV,
        >::empty().to_multiset().insert(s[m]));
        assert(Seq::<PlayerV>::empty().to_multiset() =~= Multiset::<PlayerV>::empty());
        assert(s.to_multiset().contains(s[m]));
        assert(sorted.to_multiset() =~= s.to_multiset());
        // Sortedness.
        assert forall|a: int, b: int| 0 <= a < b < sorted.len() implies #[trigger] rank_order()(
            sorted[a],
            sorted[b],
        ) by {
            if a == 0 {
                let v = sorted[b];
                assert(v == sort_spec(rest)[b - 1]);
                assert(sort_spec(rest).to_multiset().contains(v)) by {
                    assert(sort_spec(rest)[b - 1] == v);
                }
                assert(rest.to_multiset().contains(v));
                assert(rest.contains(v));
                let t = choose|t: int| 0 <= t < rest.len() && rest[t] == v;
                assert(rest[t] == (if t < m {
                    s[t]
                } else {
                    s[t + 1]
                }));
                assert(rank_leq(s[m], v));
            } else {
                assert(sorted[a] == sort_spec(rest)[a - 1]);
                assert(sorted[b] == sort_spec(rest)[b - 1]);
                assert(rank_order()(sort_spec(rest)[a - 1], sort_spec(rest)[b - 1]));
            }
        }
    }
}

/// Distinct names survive any permutation.
pub proof fn lemma_names_unique_permutation(x: Seq<PlayerV>, y: Seq<PlayerV>)
    requires
        x.to_multiset() == y.to_multiset(),
        names_unique(x),
    ensures
        names_unique(y),
{
    broadcast use vstd::seq_lib::group_to_multiset_ensures;
    broadcast use vstd::multiset::group_multiset_axioms;

    assert(x.no_duplicates()) by {
        assert forall|i: int, j: int| 0 <= i < x.len() && 0 <= j < x.len() && i != j implies x[i]
            != x[j] by {
            if x[i] == x[j] {
                assert(x[i].name == x[j].name);
            }
        }
    }
    x.lemma_multiset_has_no_duplicates();
    assert forall|i: int, j: int| 0 <= i < j < y.len() implies (#[trigger] y[i]).name != (
    #[trigger] y[j]).name by {
        if y[i].name == y[j].name {
            if y[i] == y[j] {
                assert(y.to_multiset().count(y[i]) >= 2) by {
                    let yr = y.remove(i);
                    assert(yr.to_multiset() == y.to_multiset().remove(y[i]));
                    assert(yr[j - 1] == y[j]);
                    assert(yr.contains(y[j]));
                    assert(yr.to_multiset().count(y[j]) > 0);
                }
                assert(x.to_multiset().count(y[i]) >= 2);
                assert(x.to_multiset().contains(y[i]));
                assert(false);
            } else {
                assert(y.contains(y[i]) && y.contains(y[j]));
                assert(x.to_multiset().count(y[i]) > 0 && x.to_multiset().count(y[j]) > 0);
                assert(x.contains(y[i]) && x.contains(y[j]));
                let k = choose|k: int| 0 <= k < x.len() && x[k] == y[i];
                let l = choose|l: int| 0 <= l < x.len() && x[l] == y[j];
                assert(k != l);
                assert(x[k].name == x[l].name);
                assert(false);
            }
        }
    }
}

/// Two orderings of the same players that are both sorted by the ranking
/// order are the same list: ties that reach the name are broken by it, so
/// a roster with distinct names has exactly one standings order.
pub proof fn lemma_standings_unique(x: Seq<PlayerV>, y: Seq<PlayerV>)
    requires
        x.to_multiset() == y.to_multiset(),
        sorted_by(x, rank_order()),
        sorted_by(y, rank_order()),
        names_unique(x),
    ensures
        x == y,
    decreases x.len(),
{
    broadcast use vstd::seq_lib::group_to_multiset_ensures;
    broadcast use vstd::multiset::group_multiset_axioms;

    vstd::seq_lib::to_multiset_len(x);
    vstd::seq_lib::to_multiset_len(y);
    if x.len() == 0 {
        assert(x =~= y);
    } else {
        assert(y.len() == x.len());
        assert(y.to_multiset().contains(y[0])) by {
            assert(y.contains(y[0]));
        }
        assert(x.contains(y[0]));
        let i = choose|i: int| 0 <= i < x.len() && x[i] == y[0];
        assert(x.to_multiset().contains(x[0])) by {
            assert(x.contains(x[0]));
        }
        assert(y.contains(x[0]));
        let j = choose|j: int| 0 <= j < y.len() && y[j] == x[0];
        lemma_rank_total(x[0], x[0]);
        lemma_rank_total(y[0], y[0]);
        if i != 0 {
            assert(rank_order()(x[0], x[i]));
        }
        if j != 0 {
            assert(rank_order()(y[0], y[j]));
        }
        assert(rank_leq(x[0], x[i]));
        assert(rank_leq(y[0], y[j]));
        lemma_rank_antisymmetric(x[0], y[0]);
        assert(x[0].name == y[0].name);
        assert(x[i].name == x[0].name);
        if i != 0 {
            assert(false);
        }
        assert(x[0] == y[0]);
        let xd = x.drop_first();
        let yd = y.drop_first();
        assert(xd =~= x.remove(0));
        assert(yd =~= y.remove(0));
        assert(xd.to_multiset() == x.to_multiset().remove(x[0]));
        assert(yd.to_multiset() == y.to_multiset().remove(y[0]));
        assert(names_unique(xd)) by {
            assert forall|a: int, b: int| 0 <= a < b < xd.len() implies (#[trigger] xd[a]).name
                != (#[trigger] xd[b]).name by {
                assert(xd[a] == x[a + 1] && xd[b] == x[b + 1]);
            }
        }
        assert(sorted_by(xd, rank_order())) by {
            assert forall|a: int, b: int| 0 <= a < b < xd.len() implies #[trigger] rank_order()(
                xd[a],
                xd[b],
            ) by {
                assert(xd[a] == x[a + 1] && xd[b] == x[b + 1]);
                assert(rank_order()(x[a + 1], x[b + 1]));
            }
        }
        assert(sorted_by(yd, rank_order())) by {
            assert forall|a: int, b: int| 0 <= a < b < yd.len() implies #[trigger] rank_order()(
                yd[a],
                yd[b],
            ) by {
                assert(yd[a] == y[a + 1] && yd[b] == y[b + 1]);
                assert(rank_order()(y[a + 1], y[b + 1]));
            }
        }
        lemma_standings_unique(xd, yd);
        assert(x =~= y) by {
            assert forall|t: int| 0 <= t < x.len() implies x[t] == y[t] by {
                if t > 0 {
                    assert(xd[t - 1] == yd[t - 1]);
                }
            }
        }
    }
}

/// Index of the first occurrence of name `n` in a name list, or -1.
pub open spec fn find_in_names(l: Seq<Seq<char>>, n: Seq<char>) -> int
    decreases l.len(),
{
    if l.len() == 0 {
        -1
    } else if l[0] == n {
        0
    } else {
        let t = find_in_names(l.drop_first(), n);
        if t < 0 {
            -1
        } else {
            t + 1
        }
    }
}

/// `find_in_names` returns either -1 with no occurrence, or the first index.
pub proof fn lemma_find_in_names(l: Seq<Seq<char>>, n: Seq<char>)
    ensures
        find_in_names(l, n) < 0 ==> forall|k: int| 0 <= k < l.len() ==> l[k] != n,
        find_in_names(l, n) >= 0 ==> {
            &&& find_in_names(l, n) < l.len()
            &&& l[find_in_names(l, n)] == n
            &&& forall|k: int| 0 <= k < find_in_names(l, n) ==> l[k] != n
        },
    decreases l.len(),
{
    if l.len() > 0 && l[0] != n {
        lemma_find_in_names(l.drop_first(), n);
        assert(forall|k: int| 1 <= k < l.len() ==> l[k] == l.drop_first()[k - 1]);
    }
}

/// Appending an entry leaves an earlier first occurrence alone.
proof fn lemma_find_in_names_push(l: Seq<Seq<char>>, x: Seq<char>, n: Seq<char>)
    ensures
        find_in_names(l.push(x), n) == (if find_in_names(l, n) >= 0 {
            find_in_names(l, n)
        } else if x == n {
            l.len() as int
        } else {
            -1
        }),
    decreases l.len(),
{
    if l.len() == 0 {
        assert(l.push(x)[0] == x);
        assert(l.push(x).drop_first() =~= Seq::<Seq<char>>::empty());
        assert(find_in_names(l.push(x).drop_first(), n) == -1);
    } else {
        lemma_find_in_names_push(l.drop_first(), x, n);
        assert(l.push(x)[0] == l[0]);
        assert(l.push(x).drop_first() =~= l.drop_first().push(x));
    }
}

/// The registry after one standings entry is recorded: the named player's
/// histogram gains one occurrence of `rank`; an unknown name changes nothing.
pub open spec fn bump_rank(s: Seq<PlayerV>, n: Seq<char>, rank: int) -> Seq<PlayerV> {
    let f = find_name(s, n);
    if f >= 0 {
        s.update(f, PlayerV { placements: plc_bump(s[f].placements, rank), ..s[f] })
    } else {
        s
    }
}

/// The registry after the first `upto` standings entries are recorded, the
/// entry at position `t` (0-based) counting as rank `t + 1`.
pub open spec fn aggregate(reg: Seq<PlayerV>, st: Seq<Seq<char>>, upto: int) -> Seq<PlayerV>
    decreases upto,
{
    if upto <= 0 {
        reg
    } else {
        bump_rank(aggregate(reg, st, upto - 1), st[upto - 1], upto)
    }
}

/// `find_name` depends only on the names.
proof fn lemma_find_name_names(s: Seq<PlayerV>, t: Seq<PlayerV>, n: Seq<char>)
    requires
        s.len() == t.len(),
        forall|k: int| 0 <= k < s.len() ==> (#[trigger] s[k]).name == t[k].name,
    ensures
        find_name(s, n) == find_name(t, n),
    decreases s.len(),
{
    if s.len() > 0 {
        assert(s.drop_first().len() == t.drop_first().len());
        assert(forall|k: int|
            0 <= k < s.drop_first().len() ==> (#[trigger] s.drop_first()[k]).name
                == t.drop_first()[k].name) by {
            assert(forall|k: int|
                0 <= k < s.drop_first().len() ==> s.drop_first()[k] == s[k + 1] && t.drop_first()[k]
                    == t[k + 1]);
        }
        lemma_find_name_names(s.drop_first(), t.drop_first(), n);
    }
}

/// Recording standings touches placements only, each named player once:
/// the player first named at standings position `t` gains one occurrence of
/// rank `t + 1`, and every other field and player stays as it was.
pub proof fn lemma_aggregate(reg: Seq<PlayerV>, st: Seq<Seq<char>>, upto: int)
    requires
        names_unique(reg),
        0 <= upto,
        forall|a: int, b: int| 0 <= a < b < upto && b < st.len() ==> st[a] != st[b],
        upto <= st.len(),
    ensures
        aggregate(reg, st, upto).len() == reg.len(),
        forall|k: int|
            0 <= k < reg.len() ==> {
                let q = #[trigger] aggregate(reg, st, upto)[k];
                &&& q.name == reg[k].name
                &&& q.wins == reg[k].wins
                &&& q.losses == reg[k].losses
                &&& q.opp_wins == reg[k].opp_wins
                &&& q.opp_losses == reg[k].opp_losses
                &&& q.opponents == reg[k].opponents
                &&& q.placements == (if find_in_names(st.take(upto), reg[k].name) >= 0 {
                    plc_bump(reg[k].placements, find_in_names(st.take(upto), reg[k].name) + 1)
                } else {
                    reg[k].placements
                })
            },
    decreases upto,
{
    if upto == 0 {
        assert(st.take(0) =~= Seq::<Seq<char>>::empty());
        assert forall|k: int| 0 <= k < reg.len() implies find_in_names(
            st.take(0),
            (#[trigger] reg[k]).name,
        ) < 0 by {}
    } else {
        lemma_aggregate(reg, st, upto - 1);
        let prev = aggregate(reg, st, upto - 1);
        let cur = aggregate(reg, st, upto);
        let nm = st[upto - 1];
        lemma_find_name_names(prev, reg, nm);
        lemma_find_name(reg, nm);
        let f = find_name(reg, nm);
        assert(st.take(upto) =~= st.take(upto - 1).push(nm));
        assert forall|k: int| 0 <= k < reg.len() implies {
            let q = #[trigger] cur[k];
            &&& q.name == reg[k].name
            &&& q.wins == reg[k].wins
            &&& q.losses == reg[k].losses
            &&& q.opp_wins == reg[k].opp_wins
            &&& q.opp_losses == reg[k].opp_losses
            &&& q.opponents == reg[k].opponents
            &&& q.placements == (if find_in_names(st.take(upto), reg[k].name) >= 0 {
                plc_bump(reg[k].placements, find_in_names(st.take(upto), reg[k].name) + 1)
            } else {
                reg[k].placements
            })
        } by {
            lemma_find_in_names_push(st.take(upto - 1), nm, reg[k].name);
            lemma_find_in_names(st.take(upto - 1), reg[k].name);
            if f >= 0 && k == f {
                // This player is named at position upto - 1; it was not
                // named earlier, for standings names are distinct.
                if find_in_names(st.take(upto - 1), reg[k].name) >= 0 {
                    let e = find_in_names(st.take(upto - 1), reg[k].name);
                    assert(st.take(upto - 1)[e] == reg[k].name);
                    assert(st[e] == nm);
                    assert(false);
                }
            } else if f >= 0 {
                assert(reg[k].name != nm);
            } else {
                // No player carries the name at position upto - 1.
                assert(reg[k].name != nm);
            }
        }
    }
}

/// Sum of every placement count over the whole registry.
pub open spec fn reg_total(s: Seq<PlayerV>) -> int
    decreases s.len(),
{
    if s.len() == 0 {
        0
    } else {
        plc_total(s[0].placements) + reg_total(s.drop_first())
    }
}

proof fn lemma_reg_total_update(s: Seq<PlayerV>, i: int, v: PlayerV)
    requires
        0 <= i < s.len(),
    ensures
        reg_total(s.update(i, v)) == reg_total(s) - plc_total(s[i].placements) + plc_total(
            v.placements,
        ),
    decreases s.len(),
{
    if i == 0 {
        assert(s.update(0, v).drop_first() =~= s.drop_first());
    } else {
        lemma_reg_total_update(s.drop_first(), i - 1, v);
        assert(s.update(i, v).drop_first() =~= s.drop_first().update(i - 1, v));
    }
}

/// Each standings entry whose name is in the registry adds exactly one to
/// the grand total of placement counts.
pub proof fn lemma_aggregate_total(reg: Seq<PlayerV>, st: Seq<Seq<char>>, upto: int)
    requires
        0 <= upto <= st.len(),
        forall|t: int| 0 <= t < upto ==> contains_name(reg, #[trigger] st[t]),
    ensures
        reg_total(aggregate(reg, st, upto)) == reg_total(reg) + upto,
    decreases upto,
{
    if upto > 0 {
        lemma_aggregate_total(reg, st, upto - 1);
        let prev = aggregate(reg, st, upto - 1);
        let nm = st[upto - 1];
        assert(prev.len() == reg.len() && forall|k: int|
            0 <= k < reg.len() ==> (#[trigger] prev[k]).name == reg[k].name) by {
            lemma_aggregate_fields(reg, st, upto - 1);
        }
        lemma_find_name_names(prev, reg, nm);
        lemma_find_name(prev, nm);
        let f = find_name(prev, nm);
        assert(f >= 0);
        lemma_reg_total_update(
            prev,
            f,
            PlayerV { placements: plc_bump(prev[f].placements, upto), ..prev[f] },
        );
        lemma_plc_bump_total(prev[f].placements, upto);
    }
}

/// Aggregation keeps length and names whatever the standings hold.
proof fn lemma_aggregate_fields(reg: Seq<PlayerV>, st: Seq<Seq<char>>, upto: int)
    requires
        0 <= upto,
    ensures
        aggregate(reg, st, upto).len() == reg.len(),
        forall|k: int|
            0 <= k < reg.len() ==> (#[trigger] aggregate(reg, st, upto)[k]).name == reg[k].name,
    decreases upto,
{
    if upto > 0 {
        lemma_aggregate_fields(reg, st, upto - 1);
        let prev = aggregate(reg, st, upto - 1);
        lemma_find_name(prev, st[upto - 1]);
    }
}

/// The outcome assignment encoded by `iteration`: bit `j` clear lets the
/// first-listed player of match `j` win, bit `j` set the second.
pub open spec fn resolve(ms: Seq<MatchV>, iteration: u64) -> Seq<Resolved> {
    Seq::new(
        ms.len(),
        |j: int|
            if (iteration >> (j as u64)) & 1u64 == 0u64 {
                Resolved { winner: ms[j].player1, loser: ms[j].player2 }
            } else {
                Resolved { winner: ms[j].player2, loser: ms[j].player1 }
            },
    )
}

/// The names of one outcome's full standings, best first.
pub open spec fn standings_of(snap: Seq<PlayerV>) -> Seq<Seq<char>> {
    sort_spec(snap).map_values(|p: PlayerV| p.name)
}

/// The registry after one outcome is evaluated: the outcome's matches are
/// propagated into a fresh snapshot, the snapshot is ranked, and the first
/// min(k, player count) standings are recorded in the registry.
pub open spec fn simulate_spec(reg: Seq<PlayerV>, ms: Seq<MatchV>, iteration: u64, k: int) -> Seq<
    PlayerV,
> {
    aggregate(
        reg,
        standings_of(apply_all(reg, resolve(ms, iteration))),
        imin(k, reg.len() as int),
    )
}

/// Propagating a list of matches changes only the four counters.
pub proof fn lemma_apply_all_preserves(s: Seq<PlayerV>, rs: Seq<Resolved>, slack: int)
    ensures
        apply_all(s, rs).len() == s.len(),
        forall|k: int|
            0 <= k < s.len() ==> {
                let q = #[trigger] apply_all(s, rs)[k];
                &&& q.name == s[k].name
                &&& q.opponents == s[k].opponents
                &&& q.placements == s[k].placements
            },
        names_unique(s) ==> names_unique(apply_all(s, rs)),
        opps4(s) ==> opps4(apply_all(s, rs)),
        plc_all_empty(s) ==> plc_all_empty(apply_all(s, rs)),
        opps4(s) && stats_ok(s, slack) && slack >= 4 * rs.len() ==> stats_ok(
            apply_all(s, rs),
            slack - 4 * rs.len(),
        ),
    decreases rs.len(),
{
    if rs.len() > 0 {
        lemma_apply_one_preserves(s, rs[0], slack);
        lemma_apply_all_preserves(apply_one(s, rs[0]), rs.drop_first(), slack - 4);
    }
}

/// The standings of a snapshot with distinct names: one entry per player,
/// every name distinct, every name taken from the snapshot.
pub proof fn lemma_standings_of(snap: Seq<PlayerV>)
    requires
        names_unique(snap),
    ensures
        standings_of(snap).len() == snap.len(),
        forall|a: int, b: int|
            0 <= a < b < standings_of(snap).len() ==> standings_of(snap)[a] != standings_of(
                snap,
            )[b],
        forall|t: int|
            0 <= t < standings_of(snap).len() ==> exists|u: int|
                0 <= u < snap.len() && (#[trigger] standings_of(snap)[t]) == snap[u].name,
{
    broadcast use vstd::seq_lib::group_to_multiset_ensures;
    broadcast use vstd::multiset::group_multiset_axioms;

    lemma_sort_spec_ensures(snap);
    lemma_names_unique_permutation(snap, sort_spec(snap));
    let st = standings_of(snap);
    assert forall|t: int| 0 <= t < st.len() implies exists|u: int|
        0 <= u < snap.len() && (#[trigger] st[t]) == snap[u].name by {
        let v = sort_spec(snap)[t];
        assert(st[t] == v.name);
        assert(sort_spec(snap).to_multiset().contains(v)) by {
            assert(sort_spec(snap)[t] == v);
        }
        assert(snap.contains(v));
        let u = choose|u: int| 0 <= u < snap.len() && snap[u] == v;
        assert(st[t] == snap[u].name);
    }
}

/// One evaluated outcome changes nothing but placement histograms, and
/// raises no single placement count by more than one.
pub proof fn lemma_simulate_preserves(reg: Seq<PlayerV>, ms: Seq<MatchV>, it: u64, k: int, c: int)
    requires
        names_unique(reg),
        plc_all_le(reg, c),
        0 <= c,
        0 <= k,
    ensures
        simulate_spec(reg, ms, it, k).len() == reg.len(),
        forall|j: int|
            0 <= j < reg.len() ==> {
                let q = #[trigger] simulate_spec(reg, ms, it, k)[j];
                &&& q.name == reg[j].name
                &&& q.wins == reg[j].wins
                &&& q.losses == reg[j].losses
                &&& q.opp_wins == reg[j].opp_wins
                &&& q.opp_losses == reg[j].opp_losses
                &&& q.opponents == reg[j].opponents
            },
        plc_all_le(simulate_spec(reg, ms, it, k), c + 1),
        names_unique(simulate_spec(reg, ms, it, k)),
{
    let rs = resolve(ms, it);
    let snap = apply_all(reg, rs);
    lemma_apply_all_preserves(reg, rs, 0);
    lemma_standings_of(snap);
    let st = standings_of(snap);
    let l = imin(k, reg.len() as int);
    lemma_aggregate(reg, st, l);
    let res = simulate_spec(reg, ms, it, k);
    assert forall|j: int| 0 <= j < res.len() implies plc_counts_le(
        (#[trigger] res[j]).placements,
        c + 1,
    ) by {
        if find_in_names(st.take(l), reg[j].name) >= 0 {
            lemma_plc_bump_counts(
                reg[j].placements,
                find_in_names(st.take(l), reg[j].name) + 1,
                c,
            );
        } else {
            assert(res[j].placements == reg[j].placements);
        }
    }
}

/// One evaluated outcome raises the placement-count grand total by exactly
/// min(k, player count): the histograms account for each standings position
/// once and no more.
pub proof fn lemma_simulate_total(reg: Seq<PlayerV>, ms: Seq<MatchV>, it: u64, k: int)
    requires
        names_unique(reg),
        0 <= k,
    ensures
        reg_total(simulate_spec(reg, ms, it, k)) == reg_total(reg) + imin(k, reg.len() as int),
{
    broadcast use vstd::seq_lib::group_to_multiset_ensures;
    broadcast use vstd::multiset::group_multiset_axioms;

    let rs = resolve(ms, it);
    let snap = apply_all(reg, rs);
    lemma_apply_all_preserves(reg, rs, 0);
    lemma_standings_of(snap);
    let st = standings_of(snap);
    let l = imin(k, reg.len() as int);
    assert forall|t: int| 0 <= t < l implies contains_name(reg, #[trigger] st[t]) by {
        let u = choose|u: int| 0 <= u < snap.len() && st[t] == snap[u].name;
        assert(snap[u].name == reg[u].name);
        lemma_find_name(reg, st[t]);
        if find_name(reg, st[t]) < 0 {
            assert(reg[u].name != st[t]);
        }
    }
    lemma_aggregate_total(reg, st, l);
}

/// Evaluate one outcome: build a fresh snapshot of the registry, propagate
/// every match as `iteration`'s bits decide it, rank the snapshot, and
/// record the top `top_ranks` placements in the registry. The registry's
/// placement-count grand total rises by exactly min(top_ranks, player
/// count): each of those standings positions is counted once.
pub fn simulate(iteration: u64, top_ranks: usize, matches: &Vec<Match>, players: &mut Vec<Player>)
    requires
        matches@.len() <= 63,
        names_unique(views(old(players)@)),
        opps4(views(old(players)@)),
        stats_ok(views(old(players)@), 4 * matches@.len() as int),
        plc_all_le(views(old(players)@), u64::MAX - 1),
    ensures
        views(final(players)@) == simulate_spec(
            views(old(players)@),
            match_views(matches@),
            iteration,
            top_ranks as int,
        ),
        reg_total(views(final(players)@)) == reg_total(views(old(players)@)) + imin(
            top_ranks as int,
            old(players)@.len() as int,
        ),
{
    let ghost reg0 = views(players@);
    let ghost ms = match_views(matches@);
    let ghost rs = resolve(ms, iteration);
    let mut snapshot = clone_registry(players);
    let n_m = matches.len();
    let mut j: usize = 0;
    while j < n_m
        invariant
            reg0 == views(old(players)@),
            views(players@) == reg0,
            names_unique(reg0),
            opps4(reg0),
            stats_ok(reg0, 4 * (n_m as int)),
            ms == match_views(matches@),
            rs == resolve(ms, iteration),
            n_m == matches@.len(),
            n_m <= 63,
            j <= n_m,
            views(snapshot@) == apply_all(reg0, rs.take(j as int)),
            views(snapshot@).len() == reg0.len(),
            forall|t: int|
                0 <= t < reg0.len() ==> (#[trigger] views(snapshot@)[t]).name == reg0[t].name,
            names_unique(views(snapshot@)),
            opps4(views(snapshot@)),
            stats_ok(views(snapshot@), 4 * ((n_m - j) as int)),
        decreases n_m - j,
    {
        let ghost pre = views(snapshot@);
        proof {
            assert(ms[j as int] == matches@[j as int]@);
            assert(stats_ok(pre, 4)) by {
                assert forall|t: int| 0 <= t < pre.len() implies {
                    let p = #[trigger] pre[t];
                    &&& 0 <= p.wins && p.wins + 4 <= u64::MAX
                    &&& 0 <= p.losses && p.losses + 4 <= u64::MAX
                    &&& 0 <= p.opp_wins
                    &&& 0 <= p.opp_losses
                    &&& p.opp_wins + p.opp_losses + 2 * 4 <= u64::MAX
                } by {
                    assert(pre[t].wins + 4 * ((n_m - j) as int) <= u64::MAX);
                }
            }
        }
        let mj = &matches[j];
        let bit = (iteration >> (j as u64)) & 1u64;
        if bit == 0 {
            apply_match(&mut snapshot, &mj.player1, &mj.player2);
        } else {
            apply_match(&mut snapshot, &mj.player2, &mj.player1);
        }
        proof {
            assert(views(snapshot@) == apply_one(pre, rs[j as int]));
            lemma_apply_all_take_step(reg0, rs, j as int);
            lemma_apply_one_preserves(pre, rs[j as int], 4 * ((n_m - j) as int));
        }
        j += 1;
    }
    let ghost snap = views(snapshot@);
    proof {
        assert(rs.take(n_m as int) =~= rs);
        assert(snap == apply_all(reg0, rs));
        assert(rates_bounded(snap)) by {
            assert forall|t: int| 0 <= t < snap.len() implies rate_bounded(
                #[trigger] snap[t],
            ) by {
                assert(snap[t].opp_wins + snap[t].opp_losses + 2 * 0 <= u64::MAX);
            }
        }
    }
    sort_players(&mut snapshot);
    proof {
        lemma_sort_spec_ensures(snap);
        lemma_names_unique_permutation(snap, sort_spec(snap));
        lemma_standings_unique(sort_spec(snap), views(snapshot@));
        assert(views(snapshot@) == sort_spec(snap));
    }
    let ghost st = standings_of(snap);
    let np = players.len();
    proof {
        lemma_standings_of(snap);
        assert(st.len() == np);
        assert forall|t: int| 0 <= t < st.len() implies contains_name(reg0, #[trigger] st[t]) by {
            let u = choose|u: int| 0 <= u < snap.len() && st[t] == snap[u].name;
            assert(snap[u].name == reg0[u].name);
            lemma_find_name(reg0, st[t]);
            if find_name(reg0, st[t]) < 0 {
                assert(reg0[u].name != st[t]);
            }
        }
        assert forall|t: int| 0 <= t < np implies (#[trigger] views(snapshot@)[t]).name
            == st[t] by {
            assert(st[t] == sort_spec(snap)[t].name);
        }
    }
    let k_eff = if top_ranks < np {
        top_ranks
    } else {
        np
    };
    let mut rk: usize = 0;
    while rk < k_eff
        invariant
            reg0 == views(old(players)@),
            names_unique(reg0),
            plc_all_le(reg0, u64::MAX - 1),
            np == reg0.len(),
            k_eff as int == imin(top_ranks as int, np as int),
            k_eff <= np,
            rk <= k_eff,
            st.len() == np,
            forall|a: int, b: int| 0 <= a < b < st.len() ==> st[a] != st[b],
            forall|t: int| 0 <= t < st.len() ==> contains_name(reg0, #[trigger] st[t]),
            snapshot@.len() == np,
            forall|t: int| 0 <= t < np ==> (#[trigger] views(snapshot@)[t]).name == st[t],
            views(players@) == aggregate(reg0, st, rk as int),
        decreases k_eff - rk,
    {
        let ghost cur = views(players@);
        proof {
            lemma_aggregate(reg0, st, rk as int);
            assert(views(snapshot@)[rk as int] == snapshot@[rk as int]@);
        }
        let name = &snapshot[rk].name;
        match find_player(players, name) {
            Some(pi) => {
                proof {
                    assert(name@ == st[rk as int]);
                    lemma_find_name(cur, name@);
                    assert(cur[pi as int].name == st[rk as int]);
                    assert(reg0[pi as int].name == st[rk as int]);
                    lemma_find_in_names(st.take(rk as int), reg0[pi as int].name);
                    if find_in_names(st.take(rk as int), reg0[pi as int].name) >= 0 {
                        let e = find_in_names(st.take(rk as int), reg0[pi as int].name);
                        assert(st.take(rk as int)[e] == st[rk as int]);
                        assert(st[e] == st[rk as int]);
                        assert(false);
                    }
                    assert(cur[pi as int].placements == reg0[pi as int].placements);
                    assert(plc_counts_le(cur[pi as int].placements, u64::MAX - 1));
                }
                let mut p = players.remove(pi);
                proof {
                    assert(p@ == cur[pi as int]);
                }
                p.add_placement(rk + 1);
                let ghost pv2 = p@;
                players.insert(pi, p);
                proof {
                    assert(views(players@) =~= cur.update(pi as int, pv2));
                    assert(aggregate(reg0, st, rk as int + 1) == bump_rank(
                        cur,
                        st[rk as int],
                        rk as int + 1,
                    ));
                    assert(find_name(cur, st[rk as int]) == pi as int);
                    assert(views(players@) == aggregate(reg0, st, rk as int + 1));
                }
            },
            None => {
                proof {
                    lemma_find_name(cur, st[rk as int]);
                    lemma_find_name(reg0, st[rk as int]);
                    let f = find_name(reg0, st[rk as int]);
                    assert(f >= 0);
                    assert(cur[f].name == reg0[f].name);
                    assert(cur[f].name != st[rk as int]);
                    assert(false);
                }
            },
        }
        rk += 1;
    }
    proof {
        assert(views(players@) == aggregate(reg0, st, imin(top_ranks as int, reg0.len() as int)));
        lemma_aggregate_total(reg0, st, k_eff as int);
    }
}

/// The size of the outcome space of `m` unplayed matches.
pub open spec fn outcome_space(m: int) -> int {
    (1u64 << (m as u64)) as int
}

/// How many outcomes a run evaluates: the whole space, or the requested
/// cap when that is smaller.
pub open spec fn outcome_count(m: int, cap: Option<u64>) -> int {
    match cap {
        Option::Some(c) => imin(c as int, outcome_space(m)),
        Option::None => outcome_space(m),
    }
}

/// The registry after outcomes 0 through n - 1 are evaluated in order.
pub open spec fn run_spec(reg: Seq<PlayerV>, ms: Seq<MatchV>, k: int, n: int) -> Seq<PlayerV>
    decreases n,
{
    if n <= 0 {
        reg
    } else {
        simulate_spec(run_spec(reg, ms, k, n - 1), ms, (n - 1) as u64, k)
    }
}

/// A registry with no recorded placements has a zero grand total.
proof fn lemma_reg_total_empty(s: Seq<PlayerV>)
    requires
        plc_all_empty(s),
    ensures
        reg_total(s) == 0,
    decreases s.len(),
{
    if s.len() > 0 {
        assert(plc_total(s[0].placements) == 0);
        assert(plc_all_empty(s.drop_first())) by {
            assert(forall|k: int|
                0 <= k < s.drop_first().len() ==> s.drop_first()[k] == s[k + 1]);
        }
        lemma_reg_total_empty(s.drop_first());
    }
}

/// Evaluate outcomes 0, 1, ... in order until the outcome space or the
/// requested cap is exhausted, recording every outcome's top standings in
/// the registry. Returns the number of outcomes evaluated, which is
/// min(cap, 2^M) for M unplayed matches. Enumeration is deterministic: the
/// final histograms are a function of the registry, match list, rank count
/// and cap alone.
pub fn run_simulations(
    players: &mut Vec<Player>,
    matches: &Vec<Match>,
    top_ranks: usize,
    simulation_count: Option<u64>,
) -> (n: u64)
    requires
        matches@.len() <= 63,
        names_unique(views(old(players)@)),
        opps4(views(old(players)@)),
        stats_ok(views(old(players)@), 4 * matches@.len() as int),
        plc_all_empty(views(old(players)@)),
        1 <= top_ranks <= old(players)@.len(),
    ensures
        n as int == outcome_count(matches@.len() as int, simulation_count),
        views(final(players)@) == run_spec(
            views(old(players)@),
            match_views(matches@),
            top_ranks as int,
            n as int,
        ),
        reg_total(views(final(players)@)) == n * imin(
            top_ranks as int,
            old(players)@.len() as int,
        ),
{
    let ghost reg0 = views(players@);
    let ghost ms = match_views(matches@);
    let m = matches.len();
    let space: u64 = 1u64 << (m as u64);
    let total: u64 = match simulation_count {
        Some(c) => if c < space {
            c
        } else {
            space
        },
        None => space,
    };
    proof {
        assert(total as int == outcome_count(matches@.len() as int, simulation_count));
        assert(plc_all_le(reg0, 0)) by {
            assert forall|t: int| 0 <= t < reg0.len() implies plc_counts_le(
                (#[trigger] reg0[t]).placements,
                0,
            ) by {
                assert(reg0[t].placements.len() == 0);
            }
        }
    }
    proof {
        lemma_reg_total_empty(reg0);
    }
    let mut i: u64 = 0;
    while i < total
        invariant
            reg0 == views(old(players)@),
            names_unique(reg0),
            opps4(reg0),
            stats_ok(reg0, 4 * matches@.len() as int),
            plc_all_le(reg0, 0),
            ms == match_views(matches@),
            m == matches@.len(),
            m <= 63,
            1 <= top_ranks <= reg0.len(),
            total <= 1u64 << (m as u64),
            i <= total,
            views(players@) == run_spec(reg0, ms, top_ranks as int, i as int),
            views(players@).len() == reg0.len(),
            names_unique(views(players@)),
            forall|t: int|
                0 <= t < reg0.len() ==> {
                    let q = #[trigger] views(players@)[t];
                    &&& q.name == reg0[t].name
                    &&& q.wins == reg0[t].wins
                    &&& q.losses == reg0[t].losses
                    &&& q.opp_wins == reg0[t].opp_wins
                    &&& q.opp_losses == reg0[t].opp_losses
                    &&& q.opponents == reg0[t].opponents
                },
            plc_all_le(views(players@), i as int),
            reg_total(views(players@)) == i * imin(top_ranks as int, reg0.len() as int),
        decreases total - i,
    {
        let ghost cur = views(players@);
        proof {
            assert(names_unique(cur));
            assert(opps4(cur)) by {
                assert forall|t: int| 0 <= t < cur.len() implies (#[trigger] cur[t]).opponents.len()
                    == 4 by {
                    assert(cur[t].opponents == reg0[t].opponents);
                }
            }
            assert(stats_ok(cur, 4 * matches@.len() as int)) by {
                assert forall|t: int| 0 <= t < cur.len() implies {
                    let p = #[trigger] cur[t];
                    &&& 0 <= p.wins && p.wins + 4 * matches@.len() as int <= u64::MAX
                    &&& 0 <= p.losses && p.losses + 4 * matches@.len() as int <= u64::MAX
                    &&& 0 <= p.opp_wins
                    &&& 0 <= p.opp_losses
                    &&& p.opp_wins + p.opp_losses + 2 * (4 * matches@.len() as int) <= u64::MAX
                } by {
                    assert(cur[t].wins == reg0[t].wins);
                }
            }
            assert(plc_all_le(cur, u64::MAX - 1)) by {
                assert forall|t: int| 0 <= t < cur.len() implies plc_counts_le(
                    (#[trigger] cur[t]).placements,
                    u64::MAX - 1,
                ) by {
                    assert(plc_counts_le(cur[t].placements, i as int));
                }
            }
        }
        simulate(i, top_ranks, matches, players);
        proof {
            lemma_simulate_preserves(cur, ms, i, top_ranks as int, i as int);
            assert(views(players@) == run_spec(reg0, ms, top_ranks as int, i as int + 1));
            assert(reg_total(views(players@)) == (i + 1) * imin(top_ranks as int, reg0.len() as int))
                by {
                let l = imin(top_ranks as int, reg0.len() as int);
                assert(reg_total(views(players@)) == reg_total(cur) + imin(
                    top_ranks as int,
                    cur.len() as int,
                ));
                assert((i as int + 1) * l == i as int * l + l) by (nonlinear_arith);
            }
        }
        i += 1;
    }
    total
}

/// Propagation looks players up by name alone, and never changes a name or
/// an opponent list, so the lists it reads are stable.
proof fn lemma_opps_of_preserved(s: Seq<PlayerV>, r: Resolved, n: Seq<char>)
    ensures
        opps_of(apply_one(s, r), n) == opps_of(s, n),
{
    let t = apply_one(s, r);
    lemma_apply_one_preserves(s, r, 0);
    lemma_find_name_names(t, s, n);
    lemma_find_name(s, n);
}

/// Propagating two matches in either order gives the same snapshot: every
/// update is an increment, and increments commute.
proof fn lemma_apply_one_commutes(s: Seq<PlayerV>, a: Resolved, b: Resolved)
    ensures
        apply_one(apply_one(s, a), b) == apply_one(apply_one(s, b), a),
{
    lemma_opps_of_preserved(s, a, b.winner);
    lemma_opps_of_preserved(s, a, b.loser);
    lemma_opps_of_preserved(s, b, a.winner);
    lemma_opps_of_preserved(s, b, a.loser);
    lemma_apply_one_preserves(s, a, 0);
    lemma_apply_one_preserves(s, b, 0);
    let ab = apply_one(apply_one(s, a), b);
    let ba = apply_one(apply_one(s, b), a);
    assert forall|k: int| 0 <= k < s.len() implies ab[k] == ba[k] by {
        assert(ab[k] == bump_one(
            bump_one(s[k], a, opps_of(s, a.winner), opps_of(s, a.loser)),
            b,
            opps_of(s, b.winner),
            opps_of(s, b.loser),
        ));
        assert(ba[k] == bump_one(
            bump_one(s[k], b, opps_of(s, b.winner), opps_of(s, b.loser)),
            a,
            opps_of(s, a.winner),
            opps_of(s, a.loser),
        ));
    }
    assert(ab =~= ba);
}

/// A single match propagated before a list gives the same snapshot as the
/// same match propagated after it.
proof fn lemma_apply_one_through(s: Seq<PlayerV>, t: Seq<Resolved>, r: Resolved)
    ensures
        apply_all(apply_one(s, r), t) == apply_one(apply_all(s, t), r),
    decreases t.len(),
{
    if t.len() > 0 {
        lemma_apply_one_commutes(s, r, t[0]);
        lemma_apply_one_through(apply_one(s, t[0]), t.drop_first(), r);
    }
}

/// A list of matches equals its own sublist with one element pulled out and
/// propagated last.
proof fn lemma_apply_all_remove(s: Seq<PlayerV>, rs: Seq<Resolved>, j: int)
    requires
        0 <= j < rs.len(),
    ensures
        apply_all(s, rs) == apply_one(apply_all(s, rs.remove(j)), rs[j]),
    decreases rs.len(),
{
    if j == 0 {
        assert(rs.remove(0) =~= rs.drop_first());
        lemma_apply_one_through(s, rs.drop_first(), rs[0]);
    } else {
        lemma_apply_all_remove(apply_one(s, rs[0]), rs.drop_first(), j - 1);
        assert(rs.drop_first().remove(j - 1) =~= rs.remove(j).drop_first());
        assert(rs.remove(j)[0] == rs[0]);
        assert(rs.drop_first()[j - 1] == rs[j]);
        assert(apply_all(s, rs.remove(j)) == apply_all(
            apply_one(s, rs[0]),
            rs.remove(j).drop_first(),
        ));
    }
}

/// Propagation is additive and commutative: the matches of one outcome may
/// be applied in any order — any permutation of the resolved match list
/// yields the identical final snapshot.
pub proof fn lemma_propagation_commutative(s: Seq<PlayerV>, rs1: Seq<Resolved>, rs2: Seq<Resolved>)
    requires
        rs1.to_multiset() == rs2.to_multiset(),
    ensures
        apply_all(s, rs1) == apply_all(s, rs2),
    decreases rs1.len(),
{
    broadcast use vstd::seq_lib::group_to_multiset_ensures;
    broadcast use vstd::multiset::group_multiset_axioms;

    vstd::seq_lib::to_multiset_len(rs1);
    vstd::seq_lib::to_multiset_len(rs2);
    if rs1.len() == 0 {
        assert(rs2.len() == 0);
    } else {
        let last = rs1[rs1.len() - 1];
        assert(rs1.to_multiset().contains(last)) by {
            assert(rs1.contains(last));
        }
        assert(rs2.contains(last));
        let j2 = choose|j: int| 0 <= j < rs2.len() && rs2[j] == last;
        lemma_apply_all_remove(s, rs1, rs1.len() - 1);
        lemma_apply_all_remove(s, rs2, j2);
        assert(rs1.remove(rs1.len() - 1).to_multiset() == rs1.to_multiset().remove(last));
        assert(rs2.remove(j2).to_multiset() == rs2.to_multiset().remove(last));
        lemma_propagation_commutative(s, rs1.remove(rs1.len() - 1), rs2.remove(j2));
    }
}

/// Enumeration is deterministic: a run on equal registries, match lists,
/// rank counts and outcome counts yields equal histograms.
pub proof fn lemma_run_deterministic(
    reg1: Seq<PlayerV>,
    reg2: Seq<PlayerV>,
    ms1: Seq<MatchV>,
    ms2: Seq<MatchV>,
    k1: int,
    k2: int,
    n1: int,
    n2: int,
)
    requires
        reg1 == reg2,
        ms1 == ms2,
        k1 == k2,
        n1 == n2,
    ensures
        run_spec(reg1, ms1, k1, n1) == run_spec(reg2, ms2, k2, n2),
{
}

/// With no unplayed matches there is exactly one outcome, and its single
/// ranking orders the players by their baseline records alone.
pub proof fn lemma_no_matches(reg: Seq<PlayerV>, k: int)
    ensures
        outcome_count(0, None) == 1,
        apply_all(reg, resolve(Seq::<MatchV>::empty(), 0)) == reg,
        run_spec(reg, Seq::<MatchV>::empty(), k, 1) == aggregate(
            reg,
            standings_of(reg),
            imin(k, reg.len() as int),
        ),
{
    assert(1u64 << 0u64 == 1u64) by (bit_vector);
    assert(resolve(Seq::<MatchV>::empty(), 0) =~= Seq::<Resolved>::empty());
    assert(apply_all(reg, Seq::<Resolved>::empty()) == reg);
    assert(run_spec(reg, Seq::<MatchV>::empty(), k, 0) == reg);
}

/// Insert a player keyed by its name: an entry already carrying the name is
/// replaced, as a map insert would; otherwise the player is appended.
pub fn insert_player(reg: &mut Vec<Player>, p: Player)
    requires
        names_unique(views(old(reg)@)),
    ensures
        views(final(reg)@) == (if find_name(views(old(reg)@), p@.name) >= 0 {
            views(old(reg)@).update(find_name(views(old(reg)@), p@.name), p@)
        } else {
            views(old(reg)@).push(p@)
        }),
        names_unique(views(final(reg)@)),
{
    let ghost s0 = views(reg@);
    let ghost pv = p@;
    match find_player(reg, &p.name) {
        Some(i) => {
            proof {
                lemma_find_name(s0, pv.name);
            }
            let _old = reg.remove(i);
            reg.insert(i, p);
            proof {
                assert(views(reg@) =~= s0.update(i as int, pv));
                assert forall|a: int, b: int| 0 <= a < b < views(reg@).len() implies (
                #[trigger] views(reg@)[a]).name != (#[trigger] views(reg@)[b]).name by {
                    if a != i as int && b != i as int {
                        assert(views(reg@)[a] == s0[a] && views(reg@)[b] == s0[b]);
                    } else if a == i as int {
                        assert(views(reg@)[a].name == s0[a].name);
                    } else {
                        assert(views(reg@)[b].name == s0[b].name);
                    }
                }
            }
        },
        None => {
            proof {
                lemma_find_name(s0, pv.name);
            }
            reg.push(p);
            proof {
                assert(views(reg@) =~= s0.push(pv));
                assert forall|a: int, b: int| 0 <= a < b < views(reg@).len() implies (
                #[trigger] views(reg@)[a]).name != (#[trigger] views(reg@)[b]).name by {
                    if b < s0.len() {
                        assert(views(reg@)[a] == s0[a] && views(reg@)[b] == s0[b]);
                    } else {
                        assert(views(reg@)[b] == pv);
                        assert(views(reg@)[a] == s0[a]);
                        assert(s0[a].name != pv.name);
                    }
                }
            }
        },
    }
}

} // verus!
