//! The score store: each team's running point total, with atomic
//! registration and increment.

use vstd::prelude::*;
use crate::outcome::StoreError;

verus! {

/// One row of the score store: a team and its running point total.
pub struct TeamEntry {
    pub name: String,
    pub points: u64,
}

/// The rows as a mapping from team name to point total; a later row with the
/// same name would shadow an earlier one, but well-formed stores have none.
pub open spec fn scores_map(s: Seq<TeamEntry>) -> Map<Seq<char>, int>
    decreases s.len(),
{
    if s.len() == 0 {
        Map::empty()
    } else {
        scores_map(s.drop_last()).insert(s.last().name@, s.last().points as int)
    }
}

/// A name is in the mapping exactly when some row carries it.
pub proof fn lemma_scores_map_dom(s: Seq<TeamEntry>, n: Seq<char>)
    ensures
        scores_map(s).dom().contains(n) <==> exists|i: int|
            0 <= i < s.len() && (#[trigger] s[i]).name@ == n,
    decreases s.len(),
{
    if s.len() > 0 {
        lemma_scores_map_dom(s.drop_last(), n);
        if s.last().name@ == n {
            assert(s[s.len() - 1].name@ == n);
        } else if exists|i: int| 0 <= i < s.len() && (#[trigger] s[i]).name@ == n {
            let i = choose|i: int| 0 <= i < s.len() && (#[trigger] s[i]).name@ == n;
            assert(s.drop_last()[i].name@ == n);
        } else if scores_map(s.drop_last()).dom().contains(n) {
            let i = choose|i: int|
                0 <= i < s.drop_last().len() && (#[trigger] s.drop_last()[i]).name@ == n;
            assert(s[i].name@ == n);
        }
    }
}

/// Whether no two rows share a name.
pub open spec fn rows_unique(s: Seq<TeamEntry>) -> bool {
    forall|i: int, j: int| 0 <= i < j < s.len() ==> s[i].name@ != s[j].name@
}

/// In a store without duplicate names, the mapping sends each row's name to
/// that row's points.
pub proof fn lemma_scores_map_at(s: Seq<TeamEntry>, i: int)
    requires
        rows_unique(s),
        0 <= i < s.len(),
    ensures
        scores_map(s).dom().contains(s[i].name@),
        scores_map(s)[s[i].name@] == s[i].points as int,
    decreases s.len(),
{
    if i == s.len() - 1 {
    } else {
        assert(s.drop_last()[i] == s[i]);
        assert(rows_unique(s.drop_last())) by {
            assert forall|a: int, b: int|
                0 <= a < b < s.drop_last().len() implies s.drop_last()[a].name@
                != s.drop_last()[b].name@ by {
                assert(s[a].name@ != s[b].name@);
            }
        }
        lemma_scores_map_at(s.drop_last(), i);
        assert(s.last().name@ != s[i].name@);
    }
}

/// Updating the points of the row at index `i` updates the mapping at that
/// row's name and nothing else.
pub proof fn lemma_scores_map_update(s: Seq<TeamEntry>, i: int, e: TeamEntry)
    requires
        rows_unique(s),
        0 <= i < s.len(),
        e.name@ == s[i].name@,
    ensures
        scores_map(s.update(i, e)) =~= scores_map(s).insert(e.name@, e.points as int),
    decreases s.len(),
{
    let t = s.update(i, e);
    if i == s.len() - 1 {
        assert(t.drop_last() =~= s.drop_last());
        assert(t.last() == e);
    } else {
        assert(t.last() == s.last());
        assert(t.drop_last() =~= s.drop_last().update(i, e));
        assert(rows_unique(s.drop_last())) by {
            assert forall|a: int, b: int|
                0 <= a < b < s.drop_last().len() implies s.drop_last()[a].name@
                != s.drop_last()[b].name@ by {
                assert(s[a].name@ != s[b].name@);
            }
        }
        assert(s.drop_last()[i] == s[i]);
        lemma_scores_map_update(s.drop_last(), i, e);
        assert(s.last().name@ != e.name@);
    }
}

/// The score store: team name to non-negative point total. Teams arrive from
/// the roster with zero points; only the engine's credit operation adds to
/// them, and no team is ever removed.
pub struct ScoreStore {
    pub teams: Vec<TeamEntry>,
}

impl View for ScoreStore {
    type V = Map<Seq<char>, int>;

    open spec fn view(&self) -> Map<Seq<char>, int> {
        scores_map(self.teams@)
    }
}

impl ScoreStore {
    /// Well-formedness: no team has two rows.
    pub open spec fn wf(&self) -> bool {
        rows_unique(self.teams@)
    }

    /// An empty store.
    pub fn new() -> (r: ScoreStore)
        ensures
            r.wf(),
            r@ == Map::<Seq<char>, int>::empty(),
    {
        ScoreStore { teams: Vec::new() }
    }

    /// The index of the row naming the given team, if any.
    fn find(&self, name: &String) -> (r: Option<usize>)
        requires
            self.wf(),
        ensures
            (match r {
                Some(i) => i < self.teams@.len() && self.teams@[i as int].name@ == name@
                    && self@.dom().contains(name@) && self@[name@] == self.teams@[
                    i as int
                ].points as int,
                None => !self@.dom().contains(name@),
            }),
    {
        let n = self.teams.len();
        let mut i: usize = 0;
        while i < n
            invariant
                n == self.teams@.len(),
                i <= n,
                self.wf(),
                forall|j: int| 0 <= j < i ==> (#[trigger] self.teams@[j]).name@ != name@,
            decreases n - i,
        {
            if self.teams[i].name == *name {
                proof {
                    lemma_scores_map_at(self.teams@, i as int);
                }
                return Some(i);
            }
            i += 1;
        }
        proof {
            lemma_scores_map_dom(self.teams@, name@);
        }
        None
    }

    /// Whether the given name resolves to a known team.
    pub fn resolve(&self, name: &String) -> (r: bool)
        requires
            self.wf(),
        ensures
            r == self@.dom().contains(name@),
    {
        self.find(name).is_some()
    }

    /// The point total of the given team, if it is known.
    pub fn get_points(&self, name: &String) -> (r: Option<u64>)
        requires
            self.wf(),
        ensures
            (match r {
                Some(p) => self@.dom().contains(name@) && p as int == self@[name@],
                None => !self@.dom().contains(name@),
            }),
    {
        match self.find(name) {
            Some(i) => Some(self.teams[i].points),
            None => None,
        }
    }

    /// Add a team with zero points if its name is new; an already known name
    /// leaves the store unchanged, points included.
    pub fn register(&mut self, name: String)
        requires
            old(self).wf(),
        ensures
            final(self).wf(),
            old(self)@.dom().contains(name@) ==> *final(self) == *old(self),
            !old(self)@.dom().contains(name@) ==> final(self)@ == old(self)@.insert(name@, 0),
    {
        match self.find(&name) {
            Some(_) => {},
            None => {
                let ghost pre = *self;
                proof {
                    lemma_scores_map_dom(pre.teams@, name@);
                }
                self.teams.push(TeamEntry { name, points: 0 });
                proof {
                    assert(self.teams@.drop_last() =~= pre.teams@);
                    assert forall|a: int, b: int|
                        0 <= a < b < self.teams@.len() implies self.teams@[a].name@
                        != self.teams@[b].name@ by {
                        if b < self.teams@.len() - 1 {
                            assert(pre.teams@[a].name@ != pre.teams@[b].name@);
                        }
                    }
                }
            },
        }
    }

    /// Atomically add `delta` to the given team's total. The addition and the
    /// bound in the precondition keep every total within a machine word.
    pub fn increment(&mut self, name: &String, delta: u64) -> (r: Result<(), StoreError>)
        requires
            old(self).wf(),
            old(self)@.dom().contains(name@) ==> old(self)@[name@] + delta <= u64::MAX,
        ensures
            final(self).wf(),
            (r is Ok) == old(self)@.dom().contains(name@),
            r is Ok ==> final(self)@ == old(self)@.insert(name@, old(self)@[name@] + delta),
            r is Err ==> *final(self) == *old(self) && r == Result::<(), StoreError>::Err(
                StoreError::NotFound,
            ),
    {
        match self.find(name) {
            Some(i) => {
                let ghost pre = *self;
                let updated = self.teams[i].points + delta;
                self.teams[i].points = updated;
                proof {
                    let ghost e = self.teams@[i as int];
                    assert(e.name@ == name@);
                    assert(e.points as int == pre@[name@] + delta);
                    assert(self.teams@ =~= pre.teams@.update(i as int, e));
                    lemma_scores_map_update(pre.teams@, i as int, e);
                    assert forall|a: int, b: int|
                        0 <= a < b < self.teams@.len() implies self.teams@[a].name@
                        != self.teams@[b].name@ by {
                        assert(pre.teams@[a].name@ != pre.teams@[b].name@);
                    }
                }
                Ok(())
            },
            None => Err(StoreError::NotFound),
        }
    }
}

} // verus!
