//! The verification engine: the stores wired together behind `submit`, the
//! operation that decides a submission and credits it at most once.

use vstd::prelude::*;
use crate::catalog::{Catalog, InfoChallenge, ScoredChallenge};
use crate::ledger::Ledger;
use crate::model::{
    lemma_correct_no_overflow, lemma_credited_none, lemma_step_preserves_inv, solved_names, Model,
};
use crate::outcome::Outcome;
use crate::scores::{lemma_scores_map_at, lemma_scores_map_dom, ScoreStore};

verus! {

/// The verification engine: it owns the challenge catalog, the solve ledger
/// and the score store, and decides every submission. Its one mutating path
/// credits a (challenge, team) pair and adds the points in the same step, so
/// a credited solve whose points were not added cannot arise here.
pub struct Engine {
    pub catalog: Catalog,
    pub ledger: Ledger,
    pub scores: ScoreStore,
}

impl View for Engine {
    type V = Model;

    open spec fn view(&self) -> Model {
        Model { catalog: self.catalog@, ledger: self.ledger@, scores: self.scores@ }
    }
}

impl Engine {
    /// Well-formedness: each store is well formed and the whole satisfies the
    /// score/ledger consistency invariant.
    pub open spec fn wf(&self) -> bool {
        &&& self.catalog.wf()
        &&& self.ledger.wf()
        &&& self.scores.wf()
        &&& self@.inv()
    }

    /// A fresh engine over a seeded catalog: no teams, no credits, no points.
    pub fn new(catalog: Catalog) -> (r: Engine)
        requires
            catalog.wf(),
        ensures
            r.wf(),
            r@.catalog == catalog@,
            r@.ledger == Set::<(Seq<char>, Seq<char>)>::empty(),
            r@.scores == Map::<Seq<char>, int>::empty(),
    {
        Engine { catalog, ledger: Ledger::new(), scores: ScoreStore::new() }
    }

    /// Whether the given name resolves to a known team.
    pub fn resolve(&self, team: &String) -> (r: bool)
        requires
            self.wf(),
        ensures
            r == self@.scores.dom().contains(team@),
    {
        self.scores.resolve(team)
    }

    /// Admit a team name from the roster: a new name starts with zero points,
    /// a known one leaves everything untouched. Nothing else creates teams,
    /// and nothing ever removes one.
    pub fn register_team(&mut self, name: String)
        requires
            old(self).wf(),
        ensures
            final(self).wf(),
            final(self)@.catalog == old(self)@.catalog,
            final(self)@.ledger == old(self)@.ledger,
            old(self)@.scores.dom().contains(name@) ==> *final(self) == *old(self),
            !old(self)@.scores.dom().contains(name@) ==> final(self)@.scores == old(
                self,
            )@.scores.insert(name@, 0),
    {
        let ghost pre = *self;
        self.scores.register(name);
        proof {
            if !pre@.scores.dom().contains(name@) {
                assert forall|p: (Seq<char>, Seq<char>)| #[trigger]
                    pre@.ledger.contains(p) implies p.1 != name@ by {}
                lemma_credited_none(pre@.catalog, pre@.ledger, name@);
                assert(self@.inv());
            }
        }
    }

    /// Admit a whole roster pull: register every name in the list. Afterwards
    /// the known teams are the previously known ones plus the listed names;
    /// every previously known team keeps its points, every newly admitted one
    /// starts at zero, and catalog and ledger are untouched.
    pub fn register_teams(&mut self, names: Vec<String>)
        requires
            old(self).wf(),
        ensures
            final(self).wf(),
            final(self)@.catalog == old(self)@.catalog,
            final(self)@.ledger == old(self)@.ledger,
            forall|t: Seq<char>|
                #[trigger] old(self)@.scores.dom().contains(t)
                    ==> final(self)@.scores.dom().contains(t)
                    && final(self)@.scores[t] == old(self)@.scores[t],
            forall|i: int|
                0 <= i < names@.len()
                    ==> final(self)@.scores.dom().contains((#[trigger] names@[i])@),
            forall|t: Seq<char>|
                #[trigger] final(self)@.scores.dom().contains(t)
                    && !old(self)@.scores.dom().contains(t)
                    ==> (exists|i: int| 0 <= i < names@.len() && (#[trigger] names@[i])@ == t)
                    && final(self)@.scores[t] == 0,
    {
        let ghost pre = *self;
        let n = names.len();
        let mut i: usize = 0;
        while i < n
            invariant
                n == names@.len(),
                i <= n,
                self.wf(),
                self@.catalog == pre@.catalog,
                self@.ledger == pre@.ledger,
                forall|t: Seq<char>|
                    #[trigger] pre@.scores.dom().contains(t) ==> self@.scores.dom().contains(t)
                        && self@.scores[t] == pre@.scores[t],
                forall|j: int|
                    0 <= j < i ==> self@.scores.dom().contains((#[trigger] names@[j])@),
                forall|t: Seq<char>|
                    #[trigger] self@.scores.dom().contains(t) && !pre@.scores.dom().contains(t)
                        ==> (exists|j: int| 0 <= j < i && (#[trigger] names@[j])@ == t)
                        && self@.scores[t] == 0,
            decreases n - i,
        {
            let name = names[i].clone();
            self.register_team(name);
            i += 1;
        }
    }

    /// Decide one submission of `secret` for `challenge` on behalf of `team`,
    /// and credit it when it wins. The state moves exactly as the model's
    /// `step`, and every outcome but a winning one leaves the engine
    /// untouched.
    pub fn submit(&mut self, team: &String, challenge: &String, secret: &String) -> (r: Outcome)
        requires
            old(self).wf(),
        ensures
            final(self).wf(),
            final(self)@ == old(self)@.step(team@, challenge@, secret@).0,
            r == old(self)@.step(team@, challenge@, secret@).1,
            !(r is Correct) ==> *final(self) == *old(self),
    {
        if !self.scores.resolve(team) {
            return Outcome::UnknownTeam;
        }
        let points: u64;
        match self.catalog.lookup(challenge) {
            None => {
                return Outcome::UnknownChallenge;
            },
            Some(ch) => {
                if !(*secret == ch.secret) {
                    return Outcome::Incorrect;
                }
                points = ch.points;
            },
        }
        let ghost pre = *self;
        let ghost ch = crate::catalog::cat_lookup(pre@.catalog, challenge@)->Some_0;
        if !self.ledger.try_credit(challenge, team) {
            return Outcome::AlreadyCredited;
        }
        proof {
            lemma_correct_no_overflow(pre@, team@, challenge@, ch);
        }
        let res = self.scores.increment(team, points);
        proof {
            assert(res is Ok);
            assert(self@ =~= pre@.step(team@, challenge@, secret@).0);
            lemma_step_preserves_inv(pre@, team@, challenge@, secret@);
        }
        Outcome::Correct(points)
    }

    /// The point total of the given team, if it is known.
    pub fn team_points(&self, team: &String) -> (r: Option<u64>)
        requires
            self.wf(),
        ensures
            (match r {
                Some(p) => self@.scores.dom().contains(team@) && p as int == self@.scores[team@],
                None => !self@.scores.dom().contains(team@),
            }),
    {
        self.scores.get_points(team)
    }

    /// Every team and its point total, one pair per known team.
    pub fn all_scores(&self) -> (r: Vec<(String, u64)>)
        requires
            self.wf(),
        ensures
            forall|i: int|
                0 <= i < r@.len() ==> self@.scores.dom().contains((#[trigger] r@[i]).0@)
                    && r@[i].1 as int == self@.scores[r@[i].0@],
            forall|t: Seq<char>|
                #[trigger] self@.scores.dom().contains(t) ==> exists|i: int|
                    0 <= i < r@.len() && (#[trigger] r@[i]).0@ == t,
            forall|i: int, j: int| 0 <= i < j < r@.len() ==> r@[i].0@ != r@[j].0@,
    {
        let n = self.scores.teams.len();
        let mut r: Vec<(String, u64)> = Vec::new();
        let mut i: usize = 0;
        while i < n
            invariant
                n == self.scores.teams@.len(),
                i <= n,
                self.wf(),
                r@.len() == i,
                forall|j: int|
                    0 <= j < i ==> (#[trigger] r@[j]).0@ == self.scores.teams@[j].name@
                        && r@[j].1 == self.scores.teams@[j].points,
            decreases n - i,
        {
            let name = self.scores.teams[i].name.clone();
            let points = self.scores.teams[i].points;
            r.push((name, points));
            i += 1;
        }
        proof {
            assert forall|i: int|
                0 <= i < r@.len() implies self@.scores.dom().contains((#[trigger] r@[i]).0@)
                && r@[i].1 as int == self@.scores[r@[i].0@] by {
                lemma_scores_map_at(self.scores.teams@, i);
            }
            assert forall|t: Seq<char>| #[trigger]
                self@.scores.dom().contains(t) implies exists|i: int|
                0 <= i < r@.len() && (#[trigger] r@[i]).0@ == t by {
                lemma_scores_map_dom(self.scores.teams@, t);
                let i = choose|i: int|
                    0 <= i < self.scores.teams@.len() && (#[trigger] self.scores.teams@[i]).name@
                        == t;
                assert(r@[i].0@ == t);
            }
        }
        r
    }

    /// The names of the scored challenges this team has been credited for, in
    /// catalog order, or nothing when the team is unknown.
    pub fn solved_challenges(&self, team: &String) -> (r: Option<Vec<String>>)
        requires
            self.wf(),
        ensures
            (r is Some) == self@.scores.dom().contains(team@),
            (match r {
                Some(v) => v@.map_values(|s: String| s@) == solved_names(
                    self@.catalog,
                    self@.ledger,
                    team@,
                ),
                None => true,
            }),
    {
        if !self.scores.resolve(team) {
            return None;
        }
        let n = self.catalog.scored.len();
        let mut v: Vec<String> = Vec::new();
        let mut i: usize = 0;
        while i < n
            invariant
                n == self.catalog.scored@.len(),
                i <= n,
                self.wf(),
                v@.map_values(|s: String| s@) =~= solved_names(
                    self@.catalog.subrange(0, i as int),
                    self@.ledger,
                    team@,
                ),
            decreases n - i,
        {
            let ghost prefix = self@.catalog.subrange(0, i as int);
            let ghost longer = self@.catalog.subrange(0, i as int + 1);
            proof {
                assert(longer.drop_last() =~= prefix);
                assert(longer.last() == self@.catalog[i as int]);
            }
            if self.ledger.is_credited(&self.catalog.scored[i].name, team) {
                let name = self.catalog.scored[i].name.clone();
                v.push(name);
                proof {
                    assert(v@.map_values(|s: String| s@) =~= solved_names(
                        longer,
                        self@.ledger,
                        team@,
                    ));
                }
            } else {
                proof {
                    assert(v@.map_values(|s: String| s@) =~= solved_names(
                        longer,
                        self@.ledger,
                        team@,
                    ));
                }
            }
            i += 1;
        }
        proof {
            assert(self@.catalog.subrange(0, n as int) =~= self@.catalog);
        }
        Some(v)
    }

    /// The scored challenges of the catalog, for listing.
    pub fn scored_challenges(&self) -> (r: &Vec<ScoredChallenge>)
        ensures
            r@.map_values(|c: ScoredChallenge| c@) == self@.catalog,
    {
        &self.catalog.scored
    }

    /// The informational challenges of the catalog, for listing.
    pub fn info_challenges(&self) -> (r: &Vec<InfoChallenge>)
        ensures
            r@.map_values(|c: InfoChallenge| c@) == self.catalog.infos(),
    {
        &self.catalog.info
    }
}

} // verus!
