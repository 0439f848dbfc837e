//! The unplayed-match list: canonical ordering, deduplication and the
//! fixed sort that maps outcome-index bits to matches.

use vstd::prelude::*;
use crate::order::{lex_lt, str_lt, str_eq, lemma_lex_asymmetric, lemma_lex_connected,
    lemma_lex_transitive};

verus! {

/// Mathematical model of one unplayed match: an ordered pair of player
/// names. The list order of matches fixes which bit of the outcome index
/// decides each match.
pub ghost struct MatchV {
    pub player1: Seq<char>,
    pub player2: Seq<char>,
}

/// One unplayed match between two players.
pub struct Match {
    pub player1: String,
    pub player2: String,
}

impl View for Match {
    type V = MatchV;

    open spec fn view(&self) -> MatchV {
        MatchV { player1: self.player1@, player2: self.player2@ }
    }
}

/// The views of a list of matches.
pub open spec fn match_views(s: Seq<Match>) -> Seq<MatchV> {
    s.map_values(|m: Match| m@)
}

/// A match is canonical when its first name is not below its second: the
/// lexicographically greater name is listed first.
pub open spec fn canonical(m: MatchV) -> bool {
    !lex_lt(m.player1, m.player2)
}

/// The canonical form of a match: the names are swapped unless the first
/// is already the greater, so a match and its reversed duplicate coincide.
pub open spec fn canon_of(m: MatchV) -> MatchV {
    if lex_lt(m.player2, m.player1) {
        m
    } else {
        MatchV { player1: m.player2, player2: m.player1 }
    }
}

/// Matches ordered by first name, then by second name.
pub open spec fn pair_lt(a: MatchV, b: MatchV) -> bool {
    ||| lex_lt(a.player1, b.player1)
    ||| (a.player1 == b.player1 && lex_lt(a.player2, b.player2))
}

/// The pair order is strict and total: incomparable matches are equal.
pub proof fn lemma_pair_order(a: MatchV, b: MatchV)
    ensures
        pair_lt(a, b) ==> !pair_lt(b, a),
        !pair_lt(a, b) && !pair_lt(b, a) ==> a == b,
{
    lemma_lex_asymmetric(a.player1, b.player1);
    lemma_lex_asymmetric(a.player2, b.player2);
    lemma_lex_connected(a.player1, b.player1);
    lemma_lex_connected(a.player2, b.player2);
}

/// The pair order is transitive.
pub proof fn lemma_pair_transitive(a: MatchV, b: MatchV, c: MatchV)
    ensures
        pair_lt(a, b) && pair_lt(b, c) ==> pair_lt(a, c),
{
    lemma_lex_transitive(a.player1, b.player1, c.player1);
    lemma_lex_transitive(a.player2, b.player2, c.player2);
}

/// Decide the pair order of two matches.
fn match_lt(a: &Match, b: &Match) -> (r: bool)
    ensures
        r == pair_lt(a@, b@),
{
    if str_lt(&a.player1, &b.player1) {
        true
    } else if str_eq(&a.player1, &b.player1) {
        str_lt(&a.player2, &b.player2)
    } else {
        false
    }
}

/// Decide whether two matches pair the same names in the same order.
fn match_eq(a: &Match, b: &Match) -> (r: bool)
    ensures
        r == (a@ == b@),
{
    str_eq(&a.player1, &b.player1) && str_eq(&a.player2, &b.player2)
}

/// A match list in strictly ascending pair order: sorted, no duplicates.
pub open spec fn sorted_pairs(s: Seq<MatchV>) -> bool {
    forall|i: int, j: int| 0 <= i < j < s.len() ==> #[trigger] pair_lt(s[i], s[j])
}

/// Insert a match into a strictly sorted list, keeping it strictly sorted:
/// a match already present is not inserted again.
fn insert_canonical(out: &mut Vec<Match>, canon: Match)
    requires
        sorted_pairs(match_views(old(out)@)),
    ensures
        sorted_pairs(match_views(final(out)@)),
        forall|i: int|
            0 <= i < final(out)@.len() ==> (#[trigger] match_views(final(out)@)[i]) == canon@
                || match_views(old(out)@).contains(match_views(final(out)@)[i]),
        match_views(final(out)@).contains(canon@),
        forall|i0: int|
            0 <= i0 < old(out)@.len() ==> match_views(final(out)@).contains(
                #[trigger] match_views(old(out)@)[i0],
            ),
{
    let ghost cv = canon@;
    let ol = out.len();
    let mut idx: usize = 0;
    while idx < ol && match_lt(&out[idx], &canon)
        invariant
            ol == out@.len(),
            idx <= ol,
            cv == canon@,
            out@ == old(out)@,
            sorted_pairs(match_views(out@)),
            forall|i: int| 0 <= i < idx ==> #[trigger] pair_lt(match_views(out@)[i], cv),
        decreases ol - idx,
    {
        proof {
            assert(match_views(out@)[idx as int] == out@[idx as int]@);
        }
        idx += 1;
    }
    let dup = idx < ol && match_eq(&out[idx], &canon);
    if dup {
        proof {
            assert(match_views(out@)[idx as int] == cv);
            assert(match_views(out@).contains(cv));
        }
    } else {
        let ghost before = match_views(out@);
        out.insert(idx, canon);
        proof {
            assert(match_views(out@) =~= before.insert(idx as int, cv));
            let ov = match_views(out@);
            if (idx as int) < before.len() {
                assert(!pair_lt(before[idx as int], cv));
                assert(before[idx as int] != cv);
                lemma_pair_order(before[idx as int], cv);
                assert(pair_lt(cv, before[idx as int]));
            }
            assert forall|i: int, j: int| 0 <= i < j < ov.len() implies #[trigger] pair_lt(
                ov[i],
                ov[j],
            ) by {
                if i == idx as int {
                    assert(ov[j] == before[j - 1]);
                    if j - 1 > idx as int {
                        assert(pair_lt(before[idx as int], before[j - 1]));
                        lemma_pair_transitive(cv, before[idx as int], before[j - 1]);
                    }
                } else if j == idx as int {
                    assert(ov[i] == before[i]);
                    assert(pair_lt(before[i], cv));
                } else if i < idx as int && j > idx as int {
                    assert(ov[i] == before[i] && ov[j] == before[j - 1]);
                    if j - 1 == idx as int {
                        assert(pair_lt(before[i], cv));
                        lemma_pair_transitive(before[i], cv, before[idx as int]);
                    } else {
                        assert(pair_lt(before[i], before[j - 1]));
                    }
                } else if j < idx as int {
                    assert(ov[i] == before[i] && ov[j] == before[j]);
                } else {
                    assert(ov[i] == before[i - 1] && ov[j] == before[j - 1]);
                }
            }
            assert(ov[idx as int] == cv);
            assert(ov.contains(cv));
            assert forall|i: int| 0 <= i < ov.len() implies (#[trigger] ov[i]) == cv
                || before.contains(ov[i]) by {
                if i < idx as int {
                    assert(ov[i] == before[i]);
                } else if i > idx as int {
                    assert(ov[i] == before[i - 1]);
                }
            }
            assert forall|i0: int| 0 <= i0 < before.len() implies ov.contains(
                #[trigger] before[i0],
            ) by {
                if i0 < idx as int {
                    assert(ov[i0] == before[i0]);
                } else {
                    assert(ov[i0 + 1] == before[i0]);
                }
            }
        }
    }
}

/// `x` is the canonical form of one of the first `bound` input matches.
pub open spec fn from_input(iv: Seq<MatchV>, bound: int, x: MatchV) -> bool {
    exists|u: int| 0 <= u < bound && x == canon_of(#[trigger] iv[u])
}

/// The canonical form of any match is canonical.
pub proof fn lemma_canon_of_canonical(m: MatchV)
    ensures
        canonical(canon_of(m)),
{
    lemma_lex_asymmetric(m.player2, m.player1);
}

proof fn lemma_from_input_mono(iv: Seq<MatchV>, a: int, b: int, x: MatchV)
    requires
        from_input(iv, a, x),
        a <= b,
    ensures
        from_input(iv, b, x),
{
    let u = choose|u: int| 0 <= u < a && x == canon_of(#[trigger] iv[u]);
    assert(0 <= u < b && x == canon_of(iv[u]));
}

/// Canonicalize, deduplicate and sort the unplayed-match list: every pair
/// is put greater-name-first, a match and its reversed duplicate collapse
/// to one entry, and the result is strictly sorted into the fixed order
/// that maps outcome-index bits to matches.
pub fn canonicalize_matches(input: &Vec<Match>) -> (r: Vec<Match>)
    ensures
        sorted_pairs(match_views(r@)),
        forall|i: int| 0 <= i < r@.len() ==> canonical(#[trigger] match_views(r@)[i]),
        forall|i: int|
            0 <= i < r@.len() ==> from_input(
                match_views(input@),
                input@.len() as int,
                #[trigger] match_views(r@)[i],
            ),
        forall|u: int|
            0 <= u < input@.len() ==> match_views(r@).contains(
                canon_of(#[trigger] match_views(input@)[u]),
            ),
{
    let ghost iv = match_views(input@);
    let mut out: Vec<Match> = Vec::new();
    let n = input.len();
    let mut t: usize = 0;
    while t < n
        invariant
            n == input@.len(),
            iv == match_views(input@),
            t <= n,
            sorted_pairs(match_views(out@)),
            forall|i: int|
                0 <= i < out@.len() ==> from_input(
                    iv,
                    t as int,
                    #[trigger] match_views(out@)[i],
                ),
            forall|u: int|
                0 <= u < t ==> match_views(out@).contains(
                    canon_of(#[trigger] match_views(input@)[u]),
                ),
        decreases n - t,
    {
        let m = &input[t];
        let canon: Match = if str_lt(&m.player1, &m.player2) {
            Match { player1: m.player2.clone(), player2: m.player1.clone() }
        } else {
            Match { player1: m.player1.clone(), player2: m.player2.clone() }
        };
        proof {
            lemma_lex_connected(m@.player1, m@.player2);
            lemma_lex_asymmetric(m@.player1, m@.player2);
            assert(iv[t as int] == m@);
            assert(canon@ == canon_of(m@));
        }
        let ghost cv = canon@;
        let ghost before = match_views(out@);
        insert_canonical(&mut out, canon);
        proof {
            let ov = match_views(out@);
            assert(from_input(iv, t as int + 1, cv)) by {
                let w: int = t as int;
                assert(0 <= w && w < w + 1 && cv == canon_of(iv[w]));
            }
            assert forall|i: int| 0 <= i < ov.len() implies from_input(
                iv,
                t as int + 1,
                #[trigger] ov[i],
            ) by {
                if ov[i] == cv {
                } else {
                    assert(before.contains(ov[i]));
                    let i0 = choose|i0: int| 0 <= i0 < before.len() && before[i0] == ov[i];
                    assert(from_input(iv, t as int, before[i0]));
                    lemma_from_input_mono(iv, t as int, t as int + 1, ov[i]);
                }
            }
            assert forall|u: int| 0 <= u < t + 1 implies ov.contains(
                canon_of(#[trigger] match_views(input@)[u]),
            ) by {
                if u == t as int {
                    assert(ov.contains(cv));
                } else {
                    assert(before.contains(canon_of(match_views(input@)[u])));
                    let i0 = choose|i0: int|
                        0 <= i0 < before.len() && before[i0] == canon_of(match_views(input@)[u]);
                    assert(ov.contains(before[i0]));
                }
            }
        }
        t += 1;
    }
    proof {
        assert forall|i: int| 0 <= i < out@.len() implies canonical(
            #[trigger] match_views(out@)[i],
        ) by {
            let u = choose|u: int|
                0 <= u < t && match_views(out@)[i] == canon_of(#[trigger] iv[u]);
            lemma_canon_of_canonical(iv[u]);
        }
    }
    out
}

} // verus!
