//! The final report: which players appear in it and with what histograms.

use vstd::prelude::*;
use crate::player::{Player, PlayerV, clone_player};
use crate::ranking::views;

verus! {

/// A player belongs in the final report exactly when it reached the top
/// ranks of at least one outcome.
pub open spec fn reported(p: PlayerV) -> bool {
    p.placements.len() > 0
}

/// The final report: every player whose placement histogram is non-empty,
/// in registry order. Players that never placed are left out.
pub fn write_results(players: &Vec<Player>) -> (r: Vec<Player>)
    ensures
        views(r@) == views(players@).filter(|p: PlayerV| reported(p)),
{
    let ghost pred = |p: PlayerV| reported(p);
    let mut r: Vec<Player> = Vec::new();
    let n = players.len();
    let mut i: usize = 0;
    proof {
        reveal(Seq::filter);
        assert(views(players@).take(0) =~= Seq::<PlayerV>::empty());
        assert(views(r@) =~= views(players@).take(0).filter(pred));
    }
    while i < n
        invariant
            n == players@.len(),
            i <= n,
            pred == (|p: PlayerV| reported(p)),
            views(r@) == views(players@).take(i as int).filter(pred),
        decreases n - i,
    {
        let ghost pre = views(r@);
        let has = players[i].placements.len() > 0;
        if has {
            r.push(clone_player(&players[i]));
        }
        proof {
            reveal(Seq::filter);
            let s = views(players@);
            assert(s.take(i + 1).drop_last() =~= s.take(i as int));
            assert(s.take(i + 1).last() == s[i as int]);
            assert(s[i as int] == players@[i as int]@);
            if has {
                assert(pred(s[i as int]));
                assert(views(r@) =~= pre.push(s[i as int]));
            } else {
                assert(!pred(s[i as int]));
            }
            assert(views(r@) =~= s.take(i + 1).filter(pred));
        }
        i += 1;
    }
    proof {
        assert(views(players@).take(n as int) =~= views(players@));
    }
    r
}

} // verus!
