//! The solve ledger: which (challenge, team) pairs already hold credit,
//! with the conditional insert that decides races over a pair.

use vstd::prelude::*;

verus! {

/// One credit: the named team has been credited for the named challenge.
/// Created at most once per (challenge, team) pair; never updated or removed.
pub struct SolveRecord {
    pub challenge: String,
    pub team: String,
}

/// The solve ledger: the set of (challenge, team) pairs already credited.
/// Its uniqueness on the pair is the sole idempotency witness of the system.
pub struct Ledger {
    pub records: Vec<SolveRecord>,
}

impl View for Ledger {
    type V = Set<(Seq<char>, Seq<char>)>;

    open spec fn view(&self) -> Set<(Seq<char>, Seq<char>)> {
        self.pairs().to_set()
    }
}

impl Ledger {
    /// The stored records as (challenge, team) pairs, in insertion order.
    pub open spec fn pairs(&self) -> Seq<(Seq<char>, Seq<char>)> {
        self.records@.map_values(|r: SolveRecord| (r.challenge@, r.team@))
    }

    /// Well-formedness: no pair is recorded twice.
    pub open spec fn wf(&self) -> bool {
        forall|i: int, j: int|
            0 <= i < j < self.pairs().len() ==> self.pairs()[i] != self.pairs()[j]
    }

    /// An empty ledger.
    pub fn new() -> (r: Ledger)
        ensures
            r.wf(),
            r@ == Set::<(Seq<char>, Seq<char>)>::empty(),
    {
        let r = Ledger { records: Vec::new() };
        proof {
            assert(r@ =~= Set::<(Seq<char>, Seq<char>)>::empty());
        }
        r
    }

    /// Whether the given (challenge, team) pair already holds credit.
    pub fn is_credited(&self, challenge: &String, team: &String) -> (r: bool)
        ensures
            r == self@.contains((challenge@, team@)),
    {
        let n = self.records.len();
        let mut i: usize = 0;
        while i < n
            invariant
                n == self.records.len(),
                i <= n,
                forall|j: int| 0 <= j < i ==> (#[trigger] self.pairs()[j]) != (challenge@, team@),
            decreases n - i,
        {
            if self.records[i].challenge == *challenge && self.records[i].team == *team {
                proof {
                    assert(self.pairs()[i as int] == (challenge@, team@));
                    assert(self.pairs().contains((challenge@, team@)));
                }
                return true;
            }
            i += 1;
        }
        proof {
            assert(!self.pairs().contains((challenge@, team@)));
        }
        false
    }

    /// Insert the pair iff it is absent; return whether it was newly inserted.
    /// This is the one atomic primitive racing submissions decide through:
    /// `false` means another caller already holds the credit.
    pub fn try_credit(&mut self, challenge: &String, team: &String) -> (r: bool)
        requires
            old(self).wf(),
        ensures
            final(self).wf(),
            r == !old(self)@.contains((challenge@, team@)),
            r ==> final(self)@ == old(self)@.insert((challenge@, team@)),
            !r ==> *final(self) == *old(self),
    {
        if self.is_credited(challenge, team) {
            return false;
        }
        let ghost pre = *self;
        self.records.push(
            SolveRecord { challenge: challenge.clone(), team: team.clone() },
        );
        proof {
            assert(self.pairs() =~= pre.pairs().push((challenge@, team@)));
            assert forall|i: int, j: int| 0 <= i < j < self.pairs().len() implies self.pairs()[i]
                != self.pairs()[j] by {
                if j < self.pairs().len() - 1 {
                    assert(pre.pairs()[i] != pre.pairs()[j]);
                } else {
                    assert(pre.pairs().contains(pre.pairs()[i]));
                }
            }
            let ghost p = (challenge@, team@);
            assert forall|a: (Seq<char>, Seq<char>)|
                self.pairs().contains(a) == (pre.pairs().contains(a) || a == p) by {
                if self.pairs().contains(a) {
                    let i = choose|i: int|
                        0 <= i < self.pairs().len() && self.pairs()[i] == a;
                    if i < self.pairs().len() - 1 {
                        assert(pre.pairs()[i] == a);
                        assert(pre.pairs().contains(a));
                    }
                }
                if pre.pairs().contains(a) {
                    let i = choose|i: int| 0 <= i < pre.pairs().len() && pre.pairs()[i] == a;
                    assert(self.pairs()[i] == a);
                    assert(self.pairs().contains(a));
                }
                if a == p {
                    assert(self.pairs()[self.pairs().len() - 1] == a);
                    assert(self.pairs().contains(a));
                }
            }
            assert(self@ =~= pre@.insert(p));
        }
        true
    }
}

} // verus!
