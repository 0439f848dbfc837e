//! The player record and its placement histogram.

use vstd::prelude::*;

verus! {

/// Mathematical model of one player record: the baseline win/loss record,
/// the combined record of the four designated opponents, the opponent name
/// list, and the placement histogram kept as an association list from
/// 1-based rank to occurrence count.
#[verifier::ext_equal]
pub ghost struct PlayerV {
    pub name: Seq<char>,
    pub wins: int,
    pub losses: int,
    pub opp_wins: int,
    pub opp_losses: int,
    pub opponents: Seq<Seq<char>>,
    pub placements: Seq<(int, int)>,
}

/// Index of the first entry with rank `r` in a placement list, or -1.
pub open spec fn plc_find(s: Seq<(int, int)>, r: int) -> int
    decreases s.len(),
{
    if s.len() == 0 {
        -1
    } else if s[0].0 == r {
        0
    } else {
        let t = plc_find(s.drop_first(), r);
        if t < 0 {
            -1
        } else {
            t + 1
        }
    }
}

/// The placement list after one more occurrence of rank `r`.
pub open spec fn plc_bump(s: Seq<(int, int)>, r: int) -> Seq<(int, int)> {
    let i = plc_find(s, r);
    if i >= 0 {
        s.update(i, (r, s[i].1 + 1))
    } else {
        s.push((r, 1))
    }
}

/// Sum of all counts in a placement list.
pub open spec fn plc_total(s: Seq<(int, int)>) -> int
    decreases s.len(),
{
    if s.len() == 0 {
        0
    } else {
        s[0].1 + plc_total(s.drop_first())
    }
}

/// Every count in the list is at most `c`.
pub open spec fn plc_counts_le(s: Seq<(int, int)>, c: int) -> bool {
    forall|k: int| 0 <= k < s.len() ==> (#[trigger] s[k]).1 <= c
}

/// `plc_find` returns either -1 with no entry for `r`, or the first index
/// whose entry carries rank `r`.
pub proof fn lemma_plc_find(s: Seq<(int, int)>, r: int)
    ensures
        plc_find(s, r) < 0 ==> forall|k: int| 0 <= k < s.len() ==> (#[trigger] s[k]).0 != r,
        plc_find(s, r) >= 0 ==> {
            &&& plc_find(s, r) < s.len()
            &&& s[plc_find(s, r)].0 == r
            &&& forall|k: int| 0 <= k < plc_find(s, r) ==> (#[trigger] s[k]).0 != r
        },
    decreases s.len(),
{
    if s.len() > 0 && s[0].0 != r {
        lemma_plc_find(s.drop_first(), r);
        assert(forall|k: int| 1 <= k < s.len() ==> s[k] == s.drop_first()[k - 1]);
    }
}

/// Replacing one entry changes the total by the difference of the counts.
proof fn lemma_plc_total_update(s: Seq<(int, int)>, i: int, v: (int, int))
    requires
        0 <= i < s.len(),
    ensures
        plc_total(s.update(i, v)) == plc_total(s) - s[i].1 + v.1,
    decreases s.len(),
{
    if i == 0 {
        assert(s.update(0, v).drop_first() =~= s.drop_first());
    } else {
        lemma_plc_total_update(s.drop_first(), i - 1, v);
        assert(s.update(i, v).drop_first() =~= s.drop_first().update(i - 1, v));
    }
}

/// Appending an entry adds its count to the total.
proof fn lemma_plc_total_push(s: Seq<(int, int)>, v: (int, int))
    ensures
        plc_total(s.push(v)) == plc_total(s) + v.1,
    decreases s.len(),
{
    if s.len() == 0 {
        assert(s.push(v)[0] == v);
        assert(s.push(v).drop_first() =~= Seq::<(int, int)>::empty());
        assert(plc_total(s.push(v).drop_first()) == 0);
        assert(plc_total(s.push(v)) == v.1);
    } else {
        lemma_plc_total_push(s.drop_first(), v);
        assert(s.push(v)[0] == s[0]);
        assert(s.push(v).drop_first() =~= s.drop_first().push(v));
    }
}

/// Recording one more occurrence raises the total by exactly one.
pub proof fn lemma_plc_bump_total(s: Seq<(int, int)>, r: int)
    ensures
        plc_total(plc_bump(s, r)) == plc_total(s) + 1,
{
    let i = plc_find(s, r);
    lemma_plc_find(s, r);
    if i >= 0 {
        lemma_plc_total_update(s, i, (r, s[i].1 + 1));
    } else {
        lemma_plc_total_push(s, (r, 1));
    }
}

/// Recording one more occurrence raises no count past old bound plus one.
pub proof fn lemma_plc_bump_counts(s: Seq<(int, int)>, r: int, c: int)
    requires
        plc_counts_le(s, c),
        c >= 0,
    ensures
        plc_counts_le(plc_bump(s, r), c + 1),
{
    lemma_plc_find(s, r);
}

/// One player record: name, baseline record, aggregate opponent record,
/// the four designated opponents, and the placement histogram.
pub struct Player {
    pub name: String,
    pub wins: u64,
    pub losses: u64,
    pub opp_wins: u64,
    pub opp_losses: u64,
    pub opponents: Vec<String>,
    pub placements: Vec<(usize, u64)>,
}

impl View for Player {
    type V = PlayerV;

    open spec fn view(&self) -> PlayerV {
        PlayerV {
            name: self.name@,
            wins: self.wins as int,
            losses: self.losses as int,
            opp_wins: self.opp_wins as int,
            opp_losses: self.opp_losses as int,
            opponents: self.opponents@.map_values(|o: String| o@),
            placements: self.placements@.map_values(|e: (usize, u64)| (e.0 as int, e.1 as int)),
        }
    }
}

impl Player {
    /// Create a player with the given baseline record, opponent list and
    /// aggregate opponent record, and an empty placement histogram.
    pub fn new(
        name: String,
        wins: u64,
        losses: u64,
        opponents: Vec<String>,
        opp_wins: u64,
        opp_losses: u64,
    ) -> (p: Player)
        requires
            opponents@.len() == 4,
        ensures
            p@.name == name@,
            p@.wins == wins as int,
            p@.losses == losses as int,
            p@.opp_wins == opp_wins as int,
            p@.opp_losses == opp_losses as int,
            p@.opponents == opponents@.map_values(|o: String| o@),
            p@.placements == Seq::<(int, int)>::empty(),
    {
        let p = Player { name, wins, losses, opp_wins, opp_losses, opponents, placements: Vec::new() };
        proof {
            assert(p@.placements =~= Seq::<(int, int)>::empty());
        }
        p
    }

    /// Record one more win for this player.
    pub fn add_win(&mut self)
        requires
            old(self)@.wins < u64::MAX,
        ensures
            final(self)@ == (PlayerV { wins: old(self)@.wins + 1, ..old(self)@ }),
    {
        self.wins = self.wins + 1;
    }

    /// Record one more loss for this player.
    pub fn add_loss(&mut self)
        requires
            old(self)@.losses < u64::MAX,
        ensures
            final(self)@ == (PlayerV { losses: old(self)@.losses + 1, ..old(self)@ }),
    {
        self.losses = self.losses + 1;
    }

    /// Record one more win by one of this player's designated opponents.
    pub fn add_opponent_win(&mut self)
        requires
            old(self)@.opp_wins < u64::MAX,
        ensures
            final(self)@ == (PlayerV { opp_wins: old(self)@.opp_wins + 1, ..old(self)@ }),
    {
        self.opp_wins = self.opp_wins + 1;
    }

    /// Record one more loss by one of this player's designated opponents.
    pub fn add_opponent_loss(&mut self)
        requires
            old(self)@.opp_losses < u64::MAX,
        ensures
            final(self)@ == (PlayerV { opp_losses: old(self)@.opp_losses + 1, ..old(self)@ }),
    {
        self.opp_losses = self.opp_losses + 1;
    }

    /// Record one more final placement at rank `place` for this player.
    pub fn add_placement(&mut self, place: usize)
        requires
            plc_counts_le(old(self)@.placements, u64::MAX - 1),
        ensures
            final(self)@ == (PlayerV {
                placements: plc_bump(old(self)@.placements, place as int),
                ..old(self)@
            }),
    {
        proof {
            lemma_plc_find(self@.placements, place as int);
        }
        let ghost pv = self@.placements;
        let mut i: usize = 0;
        let n = self.placements.len();
        while i < n
            invariant
                n == self.placements.len(),
                i <= n,
                pv == self@.placements,
                pv == old(self)@.placements,
                plc_counts_le(pv, u64::MAX - 1),
                *self == (Player { placements: self.placements, ..*old(self) }),
                self@ == (PlayerV { placements: pv, ..old(self)@ }),
                forall|k: int| 0 <= k < i ==> (#[trigger] pv[k]).0 != place as int,
            decreases n - i,
        {
            let e = self.placements[i];
            if e.0 == place {
                proof {
                    lemma_plc_find(pv, place as int);
                    assert(pv[i as int].0 == place as int);
                    assert(plc_find(pv, place as int) == i as int) by {
                        let f = plc_find(pv, place as int);
                        assert(f >= 0);
                        if f < i as int {
                            assert(pv[f].0 != place as int);
                        }
                        if f > i as int {
                            assert(pv[i as int].0 != place as int);
                        }
                    }
                    assert(pv[i as int].1 <= u64::MAX - 1);
                }
                self.placements.set(i, (place, e.1 + 1));
                proof {
                    assert(self@.placements =~= plc_bump(pv, place as int));
                    assert(self@ =~= (PlayerV {
                        placements: plc_bump(old(self)@.placements, place as int),
                        ..old(self)@
                    }));
                }
                return ;
            }
            i += 1;
        }
        proof {
            lemma_plc_find(pv, place as int);
            assert(plc_find(pv, place as int) < 0) by {
                let f = plc_find(pv, place as int);
                if f >= 0 {
                    assert(pv[f].0 == place as int);
                }
            }
        }
        self.placements.push((place, 1));
        proof {
            assert(self@.placements =~= plc_bump(pv, place as int));
            assert(self@ =~= (PlayerV {
                placements: plc_bump(old(self)@.placements, place as int),
                ..old(self)@
            }));
        }
    }
}

/// Produce an independent copy of a player; views are equal.
pub fn clone_player(p: &Player) -> (r: Player)
    ensures
        r@ == p@,
{
    let mut opponents: Vec<String> = Vec::new();
    let mut i: usize = 0;
    let n = p.opponents.len();
    while i < n
        invariant
            n == p.opponents.len(),
            i <= n,
            opponents@.len() == i,
            forall|k: int| 0 <= k < i ==> (#[trigger] opponents@[k])@ == p.opponents@[k]@,
        decreases n - i,
    {
        opponents.push(p.opponents[i].clone());
        i += 1;
    }
    let mut placements: Vec<(usize, u64)> = Vec::new();
    let mut j: usize = 0;
    let m = p.placements.len();
    while j < m
        invariant
            m == p.placements.len(),
            j <= m,
            placements@ =~= p.placements@.take(j as int),
        decreases m - j,
    {
        placements.push(p.placements[j]);
        j += 1;
    }
    let r = Player {
        name: p.name.clone(),
        wins: p.wins,
        losses: p.losses,
        opp_wins: p.opp_wins,
        opp_losses: p.opp_losses,
        opponents,
        placements,
    };
    proof {
        assert(r@.opponents =~= p@.opponents);
        assert(p.placements@.take(m as int) =~= p.placements@);
        assert(r@.placements =~= p@.placements);
        assert(r@ =~= p@);
    }
    r
}

} // verus!
