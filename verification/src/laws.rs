//! What holds of the engine across whole runs: at-most-once credit,
//! score/ledger consistency, free wrong guesses, rejection without mutation,
//! and idempotent retries, each proved of the model's transition.

use vstd::prelude::*;
use crate::catalog::cat_lookup;
use crate::model::{credited_points, lemma_step_preserves_inv, Model};
use crate::outcome::Outcome;

verus! {

/// The state after the same submission has been made `n` times in a row,
/// together with the `n` outcomes in order. Concurrent submitters race only
/// at the ledger's atomic insert, so any interleaving of `n` submissions
/// decides in some serial order; this is that serial order's effect.
pub open spec fn run_repeated(
    m: Model,
    team: Seq<char>,
    chal: Seq<char>,
    secret: Seq<char>,
    n: nat,
) -> (Model, Seq<Outcome>)
    decreases n,
{
    if n == 0 {
        (m, Seq::empty())
    } else {
        let first = m.step(team, chal, secret);
        let rest = run_repeated(first.0, team, chal, secret, (n - 1) as nat);
        (rest.0, seq![first.1] + rest.1)
    }
}

/// The state after a sequence of arbitrary submissions, each a
/// (team, challenge, secret) triple, applied in order.
pub open spec fn run_all(m: Model, reqs: Seq<(Seq<char>, Seq<char>, Seq<char>)>) -> Model
    decreases reqs.len(),
{
    if reqs.len() == 0 {
        m
    } else {
        run_all(m.step(reqs.first().0, reqs.first().1, reqs.first().2).0, reqs.drop_first())
    }
}

/// Score/ledger consistency: after any sequence of submissions whatsoever,
/// the invariant still holds, so every team's stored total equals the sum
/// reconstructed from the ledger.
pub proof fn lemma_run_preserves_inv(m: Model, reqs: Seq<(Seq<char>, Seq<char>, Seq<char>)>)
    requires
        m.inv(),
    ensures
        run_all(m, reqs).inv(),
    decreases reqs.len(),
{
    if reqs.len() > 0 {
        lemma_step_preserves_inv(m, reqs.first().0, reqs.first().1, reqs.first().2);
        lemma_run_preserves_inv(
            m.step(reqs.first().0, reqs.first().1, reqs.first().2).0,
            reqs.drop_first(),
        );
    }
}

/// What the invariant pays out: a team's stored total is exactly the sum of
/// the point values of the scored challenges the ledger credits it with.
pub proof fn lemma_scores_match_ledger(m: Model, team: Seq<char>)
    requires
        m.inv(),
        m.scores.dom().contains(team),
    ensures
        m.scores[team] == credited_points(m.catalog, m.ledger, team),
{
}

/// A submission that does not win credit moves nothing: every outcome other
/// than `Correct` leaves the state exactly as it was.
pub proof fn lemma_no_win_no_change(m: Model, team: Seq<char>, chal: Seq<char>, secret: Seq<char>)
    requires
        !m.wins(team, chal, secret),
    ensures
        m.step(team, chal, secret).0 == m,
        !(m.step(team, chal, secret).1 is Correct),
{
}

/// Unknown identities are rejected without mutation: a team the roster does
/// not know yields `UnknownTeam` and an unchanged state.
pub proof fn lemma_unknown_team_rejected(
    m: Model,
    team: Seq<char>,
    chal: Seq<char>,
    secret: Seq<char>,
)
    requires
        !m.scores.dom().contains(team),
    ensures
        m.step(team, chal, secret) == (m, Outcome::UnknownTeam),
{
}

/// Unknown identities are rejected without mutation: a name that is no scored
/// challenge yields `UnknownChallenge` and an unchanged state.
pub proof fn lemma_unknown_challenge_rejected(
    m: Model,
    team: Seq<char>,
    chal: Seq<char>,
    secret: Seq<char>,
)
    requires
        m.scores.dom().contains(team),
        cat_lookup(m.catalog, chal) is None,
    ensures
        m.step(team, chal, secret) == (m, Outcome::UnknownChallenge),
{
}

/// Wrong guesses are free: a known team submitting a secret that does not
/// match, any number of times, is told `Incorrect` each time, and neither
/// ledger nor scores move at all.
pub proof fn lemma_wrong_guesses_free(
    m: Model,
    team: Seq<char>,
    chal: Seq<char>,
    secret: Seq<char>,
    n: nat,
)
    requires
        m.scores.dom().contains(team),
        cat_lookup(m.catalog, chal) is Some,
        secret != cat_lookup(m.catalog, chal)->Some_0.secret,
    ensures
        run_repeated(m, team, chal, secret, n).0 == m,
        run_repeated(m, team, chal, secret, n).1.len() == n,
        forall|k: int|
            0 <= k < n ==> run_repeated(m, team, chal, secret, n).1[k] == Outcome::Incorrect,
    decreases n,
{
    if n > 0 {
        lemma_wrong_guesses_free(m, team, chal, secret, (n - 1) as nat);
    }
}

/// A pair that already holds credit answers `AlreadyCredited` to every
/// further correct submission, and the state never moves again.
pub proof fn lemma_already_credited_stays(
    m: Model,
    team: Seq<char>,
    chal: Seq<char>,
    secret: Seq<char>,
    n: nat,
)
    requires
        m.scores.dom().contains(team),
        cat_lookup(m.catalog, chal) is Some,
        secret == cat_lookup(m.catalog, chal)->Some_0.secret,
        m.ledger.contains((chal, team)),
    ensures
        run_repeated(m, team, chal, secret, n).0 == m,
        run_repeated(m, team, chal, secret, n).1.len() == n,
        forall|k: int|
            0 <= k < n ==> run_repeated(m, team, chal, secret, n).1[k]
                == Outcome::AlreadyCredited,
    decreases n,
{
    if n > 0 {
        lemma_already_credited_stays(m, team, chal, secret, (n - 1) as nat);
    }
}

/// At-most-once credit: of `n >= 1` identical correct submissions for one
/// (challenge, team) pair, decided in some serial order, exactly the first
/// wins `Correct`, the other `n - 1` are told `AlreadyCredited`, the pair
/// enters the ledger once, and the team's total rises by the points once.
pub proof fn lemma_at_most_once(
    m: Model,
    team: Seq<char>,
    chal: Seq<char>,
    secret: Seq<char>,
    n: nat,
)
    requires
        m.wins(team, chal, secret),
        n >= 1,
    ensures
        run_repeated(m, team, chal, secret, n).0 == m.step(team, chal, secret).0,
        run_repeated(m, team, chal, secret, n).1.len() == n,
        run_repeated(m, team, chal, secret, n).1[0] == Outcome::Correct(
            cat_lookup(m.catalog, chal)->Some_0.points,
        ),
        forall|k: int|
            1 <= k < n ==> run_repeated(m, team, chal, secret, n).1[k]
                == Outcome::AlreadyCredited,
        run_repeated(m, team, chal, secret, n).0.ledger == m.ledger.insert((chal, team)),
        run_repeated(m, team, chal, secret, n).0.scores[team] == m.scores[team] + cat_lookup(
            m.catalog,
            chal,
        )->Some_0.points,
{
    let first = m.step(team, chal, secret);
    lemma_already_credited_stays(first.0, team, chal, secret, (n - 1) as nat);
}

/// A team's point total never goes down, and a known team never disappears:
/// the one mutating step only adds a non-negative point value.
pub proof fn lemma_points_never_decrease(
    m: Model,
    team: Seq<char>,
    chal: Seq<char>,
    secret: Seq<char>,
    t: Seq<char>,
)
    requires
        m.scores.dom().contains(t),
    ensures
        m.step(team, chal, secret).0.scores.dom().contains(t),
        m.step(team, chal, secret).0.scores[t] >= m.scores[t],
{
}

/// Idempotent retry safety: replaying a submission right after it was decided
/// leaves ledger and scores exactly as one submission did. A replay of a
/// winning submission is told `AlreadyCredited`; a replay of any other is
/// told the same thing again.
pub proof fn lemma_retry_idempotent(m: Model, team: Seq<char>, chal: Seq<char>, secret: Seq<char>)
    ensures
        m.step(team, chal, secret).0.step(team, chal, secret).0 == m.step(team, chal, secret).0,
        m.step(team, chal, secret).1 is Correct ==> m.step(team, chal, secret).0.step(
            team,
            chal,
            secret,
        ).1 == Outcome::AlreadyCredited,
        !(m.step(team, chal, secret).1 is Correct) ==> m.step(team, chal, secret).0.step(
            team,
            chal,
            secret,
        ).1 == m.step(team, chal, secret).1,
{
}

} // verus!
