//! The mathematical model of the scoreboard: its state, its invariant, and
//! the transition one submission makes.

use vstd::prelude::*;
use crate::catalog::{
    cat_has, cat_lookup, catalog_wf, names_unique, total_points, ChallengeView,
};
use crate::catalog::lemma_lookup_not_found;
use crate::outcome::Outcome;

verus! {

/// The points the ledger owes the given team: the sum of the point values of
/// every scored challenge whose (challenge, team) pair holds credit.
pub open spec fn credited_points(
    catalog: Seq<ChallengeView>,
    ledger: Set<(Seq<char>, Seq<char>)>,
    team: Seq<char>,
) -> int
    decreases catalog.len(),
{
    if catalog.len() == 0 {
        0
    } else {
        (if ledger.contains((catalog.last().name, team)) {
            catalog.last().points as int
        } else {
            0
        }) + credited_points(catalog.drop_last(), ledger, team)
    }
}

/// What a team is owed lies between zero and the catalog's grand total.
pub proof fn lemma_credited_le_total(
    catalog: Seq<ChallengeView>,
    ledger: Set<(Seq<char>, Seq<char>)>,
    team: Seq<char>,
)
    ensures
        0 <= credited_points(catalog, ledger, team) <= total_points(catalog),
    decreases catalog.len(),
{
    if catalog.len() > 0 {
        lemma_credited_le_total(catalog.drop_last(), ledger, team);
    }
}

/// Crediting a challenge the catalog does not hold changes what no team is
/// owed.
proof fn lemma_credited_insert_absent(
    catalog: Seq<ChallengeView>,
    ledger: Set<(Seq<char>, Seq<char>)>,
    chal: Seq<char>,
    team0: Seq<char>,
    team: Seq<char>,
)
    requires
        cat_lookup(catalog, chal) is None,
    ensures
        credited_points(catalog, ledger.insert((chal, team0)), team) == credited_points(
            catalog,
            ledger,
            team,
        ),
    decreases catalog.len(),
{
    if catalog.len() > 0 {
        lemma_credited_insert_absent(catalog.drop_last(), ledger, chal, team0, team);
    }
}

/// Crediting one fresh (challenge, team) pair raises what that team is owed
/// by exactly that challenge's point value, and what every other team is owed
/// not at all.
pub proof fn lemma_credited_insert(
    catalog: Seq<ChallengeView>,
    ledger: Set<(Seq<char>, Seq<char>)>,
    chal: Seq<char>,
    team0: Seq<char>,
    team: Seq<char>,
    ch: ChallengeView,
)
    requires
        names_unique(catalog),
        cat_lookup(catalog, chal) == Some(ch),
        !ledger.contains((chal, team0)),
    ensures
        credited_points(catalog, ledger.insert((chal, team0)), team) == credited_points(
            catalog,
            ledger,
            team,
        ) + if team == team0 {
            ch.points as int
        } else {
            0
        },
    decreases catalog.len(),
{
    let inserted = ledger.insert((chal, team0));
    if catalog.last().name == chal {
        assert(ch == catalog.last());
        assert forall|i: int|
            0 <= i < catalog.drop_last().len() implies (#[trigger] catalog.drop_last()[i]).name
            != chal by {
            assert(catalog[i].name != catalog[catalog.len() - 1].name);
        }
        lemma_lookup_not_found(catalog.drop_last(), chal);
        lemma_credited_insert_absent(catalog.drop_last(), ledger, chal, team0, team);
    } else {
        assert((catalog.last().name, team) != (chal, team0));
        assert(names_unique(catalog.drop_last())) by {
            assert forall|a: int, b: int|
                0 <= a < b < catalog.drop_last().len() implies catalog.drop_last()[a].name
                != catalog.drop_last()[b].name by {
                assert(catalog[a].name != catalog[b].name);
            }
        }
        lemma_credited_insert(catalog.drop_last(), ledger, chal, team0, team, ch);
    }
}

/// The names of the scored challenges credited to the given team, in catalog
/// order.
pub open spec fn solved_names(
    catalog: Seq<ChallengeView>,
    ledger: Set<(Seq<char>, Seq<char>)>,
    team: Seq<char>,
) -> Seq<Seq<char>>
    decreases catalog.len(),
{
    if catalog.len() == 0 {
        Seq::empty()
    } else {
        let rest = solved_names(catalog.drop_last(), ledger, team);
        if ledger.contains((catalog.last().name, team)) {
            rest.push(catalog.last().name)
        } else {
            rest
        }
    }
}

/// A team the ledger holds no credit for is owed nothing.
pub proof fn lemma_credited_none(
    catalog: Seq<ChallengeView>,
    ledger: Set<(Seq<char>, Seq<char>)>,
    team: Seq<char>,
)
    requires
        forall|p: (Seq<char>, Seq<char>)| #[trigger] ledger.contains(p) ==> p.1 != team,
    ensures
        credited_points(catalog, ledger, team) == 0,
    decreases catalog.len(),
{
    if catalog.len() > 0 {
        lemma_credited_none(catalog.drop_last(), ledger, team);
    }
}

/// The whole scoreboard as one mathematical value: the immutable catalog, the
/// set of credited (challenge, team) pairs, and each team's point total.
#[verifier::ext_equal]
pub ghost struct Model {
    pub catalog: Seq<ChallengeView>,
    pub ledger: Set<(Seq<char>, Seq<char>)>,
    pub scores: Map<Seq<char>, int>,
}

impl Model {
    /// The system invariant: the catalog is well formed, every credit names a
    /// scored challenge and a known team, and every team's stored total equals
    /// what the ledger owes it.
    pub open spec fn inv(self) -> bool {
        &&& catalog_wf(self.catalog)
        &&& forall|p: (Seq<char>, Seq<char>)|
            #[trigger] self.ledger.contains(p) ==> cat_has(self.catalog, p.0)
                && self.scores.dom().contains(p.1)
        &&& forall|t: Seq<char>|
            #[trigger] self.scores.dom().contains(t) ==> self.scores[t] == credited_points(
                self.catalog,
                self.ledger,
                t,
            )
    }

    /// One submission, as a transition: the state after it and the outcome
    /// handed to the caller. Only a correct, previously uncredited submission
    /// by a known team for a scored challenge mutates anything, and it credits
    /// the pair and adds the points in the same step.
    pub open spec fn step(self, team: Seq<char>, chal: Seq<char>, secret: Seq<char>) -> (
        Model,
        Outcome,
    ) {
        if !self.scores.dom().contains(team) {
            (self, Outcome::UnknownTeam)
        } else {
            match cat_lookup(self.catalog, chal) {
                None => (self, Outcome::UnknownChallenge),
                Some(ch) => {
                    if secret != ch.secret {
                        (self, Outcome::Incorrect)
                    } else if self.ledger.contains((chal, team)) {
                        (self, Outcome::AlreadyCredited)
                    } else {
                        (
                            Model {
                                catalog: self.catalog,
                                ledger: self.ledger.insert((chal, team)),
                                scores: self.scores.insert(
                                    team,
                                    self.scores[team] + ch.points,
                                ),
                            },
                            Outcome::Correct(ch.points),
                        )
                    }
                },
            }
        }
    }

    /// Whether one submission would win credit: the team is known, the
    /// challenge is scored, the secret matches, and the pair is uncredited.
    pub open spec fn wins(self, team: Seq<char>, chal: Seq<char>, secret: Seq<char>) -> bool {
        &&& self.scores.dom().contains(team)
        &&& cat_lookup(self.catalog, chal) matches Some(ch) && secret == ch.secret
        &&& !self.ledger.contains((chal, team))
    }
}

/// A winning submission cannot push the team's total past a machine word:
/// the total stays below the catalog's grand total, which fits.
pub proof fn lemma_correct_no_overflow(m: Model, team: Seq<char>, chal: Seq<char>, ch: ChallengeView)
    requires
        m.inv(),
        m.scores.dom().contains(team),
        cat_lookup(m.catalog, chal) == Some(ch),
        !m.ledger.contains((chal, team)),
    ensures
        0 <= m.scores[team] + ch.points <= u64::MAX,
{
    lemma_credited_insert(m.catalog, m.ledger, chal, team, team, ch);
    lemma_credited_le_total(m.catalog, m.ledger.insert((chal, team)), team);
    lemma_credited_le_total(m.catalog, m.ledger, team);
}

/// The invariant holds in every state a submission can reach: one step from
/// an invariant-satisfying state satisfies the invariant again.
pub proof fn lemma_step_preserves_inv(m: Model, team: Seq<char>, chal: Seq<char>, secret: Seq<char>)
    requires
        m.inv(),
    ensures
        m.step(team, chal, secret).0.inv(),
{
    let after = m.step(team, chal, secret).0;
    if m.scores.dom().contains(team) && cat_lookup(m.catalog, chal) is Some && secret
        == cat_lookup(m.catalog, chal)->Some_0.secret && !m.ledger.contains((chal, team)) {
        let ch = cat_lookup(m.catalog, chal)->Some_0;
        let p = (chal, team);
        assert forall|q: (Seq<char>, Seq<char>)| #[trigger]
            after.ledger.contains(q) implies cat_has(after.catalog, q.0)
            && after.scores.dom().contains(q.1) by {
            if q != p {
                assert(m.ledger.contains(q));
            }
        }
        assert forall|t: Seq<char>| #[trigger]
            after.scores.dom().contains(t) implies after.scores[t] == credited_points(
            after.catalog,
            after.ledger,
            t,
        ) by {
            lemma_credited_insert(m.catalog, m.ledger, chal, team, t, ch);
            if t != team {
                assert(m.scores.dom().contains(t));
            }
        }
    }
}

} // verus!
