//! The challenge catalog: what each scored challenge's secret is worth,
//! looked up by name, plus the informational challenges alongside it.

use vstd::prelude::*;

verus! {

/// Mathematical image of one scored challenge: its name, its blurb, the
/// secret participants must submit, and the points a solve is worth.
#[verifier::ext_equal]
pub ghost struct ChallengeView {
    pub name: Seq<char>,
    pub description: Seq<char>,
    pub secret: Seq<char>,
    pub points: u64,
}

/// Mathematical image of one informational challenge.
#[verifier::ext_equal]
pub ghost struct InfoView {
    pub name: Seq<char>,
    pub link: Seq<char>,
}

/// A challenge that can be verified: submitting `secret` is worth `points`.
pub struct ScoredChallenge {
    pub name: String,
    pub description: String,
    pub secret: String,
    pub points: u64,
}

/// A challenge that only points elsewhere; it carries no secret and no points.
pub struct InfoChallenge {
    pub name: String,
    pub link: String,
}

impl View for ScoredChallenge {
    type V = ChallengeView;

    open spec fn view(&self) -> ChallengeView {
        ChallengeView {
            name: self.name@,
            description: self.description@,
            secret: self.secret@,
            points: self.points,
        }
    }
}

impl View for InfoChallenge {
    type V = InfoView;

    open spec fn view(&self) -> InfoView {
        InfoView { name: self.name@, link: self.link@ }
    }
}

/// The scored challenge of the given name, searching from the back;
/// names are unique in a well-formed catalog, so at most one entry matches.
pub open spec fn cat_lookup(catalog: Seq<ChallengeView>, name: Seq<char>) -> Option<ChallengeView>
    decreases catalog.len(),
{
    if catalog.len() == 0 {
        None
    } else if catalog.last().name == name {
        Some(catalog.last())
    } else {
        cat_lookup(catalog.drop_last(), name)
    }
}

/// Whether the catalog holds a scored challenge of the given name.
pub open spec fn cat_has(catalog: Seq<ChallengeView>, name: Seq<char>) -> bool {
    cat_lookup(catalog, name) is Some
}

/// The sum of the point values of every scored challenge.
pub open spec fn total_points(catalog: Seq<ChallengeView>) -> int
    decreases catalog.len(),
{
    if catalog.len() == 0 {
        0
    } else {
        catalog.last().points + total_points(catalog.drop_last())
    }
}

/// No two scored challenges share a name.
pub open spec fn names_unique(catalog: Seq<ChallengeView>) -> bool {
    forall|i: int, j: int|
        0 <= i < j < catalog.len() ==> catalog[i].name != catalog[j].name
}

/// A well-formed catalog: unique names, positive point values, and a grand
/// total that fits in a machine word, so a team's score can never overflow.
pub open spec fn catalog_wf(catalog: Seq<ChallengeView>) -> bool {
    &&& names_unique(catalog)
    &&& forall|i: int| 0 <= i < catalog.len() ==> (#[trigger] catalog[i]).points > 0
    &&& total_points(catalog) <= u64::MAX
}

/// A lookup by the name standing at index `i` finds exactly that entry.
pub proof fn lemma_lookup_found(catalog: Seq<ChallengeView>, i: int)
    requires
        names_unique(catalog),
        0 <= i < catalog.len(),
    ensures
        cat_lookup(catalog, catalog[i].name) == Some(catalog[i]),
    decreases catalog.len(),
{
    if catalog.last().name == catalog[i].name {
        assert(i == catalog.len() - 1);
    } else {
        assert(i < catalog.len() - 1);
        lemma_lookup_found(catalog.drop_last(), i);
    }
}

/// A name that stands at no index is not found.
pub proof fn lemma_lookup_not_found(catalog: Seq<ChallengeView>, name: Seq<char>)
    requires
        forall|i: int| 0 <= i < catalog.len() ==> (#[trigger] catalog[i]).name != name,
    ensures
        cat_lookup(catalog, name) is None,
    decreases catalog.len(),
{
    if catalog.len() > 0 {
        lemma_lookup_not_found(catalog.drop_last(), name);
    }
}

/// A name that is not found stands at no index.
pub proof fn lemma_not_found_no_index(catalog: Seq<ChallengeView>, name: Seq<char>)
    requires
        cat_lookup(catalog, name) is None,
    ensures
        forall|i: int| 0 <= i < catalog.len() ==> (#[trigger] catalog[i]).name != name,
    decreases catalog.len(),
{
    if catalog.len() > 0 {
        lemma_not_found_no_index(catalog.drop_last(), name);
        assert forall|i: int| 0 <= i < catalog.len() implies (#[trigger] catalog[i]).name
            != name by {
            if i < catalog.len() - 1 {
                assert(catalog.drop_last()[i].name != name);
            } else {
                assert(catalog[i] == catalog.last());
            }
        }
    }
}

/// The read-only challenge catalog, loaded at seed time and immutable during
/// play: scored challenges (verifiable, worth points) and informational ones.
pub struct Catalog {
    pub scored: Vec<ScoredChallenge>,
    pub info: Vec<InfoChallenge>,
    pub total: u64,
}

impl View for Catalog {
    type V = Seq<ChallengeView>;

    open spec fn view(&self) -> Seq<ChallengeView> {
        self.scored@.map_values(|c: ScoredChallenge| c@)
    }
}

impl Catalog {
    /// The informational challenges, as mathematical values.
    pub open spec fn infos(&self) -> Seq<InfoView> {
        self.info@.map_values(|c: InfoChallenge| c@)
    }

    /// Well-formedness: the scored entries form a well-formed catalog and the
    /// cached total equals the sum of their point values.
    pub open spec fn wf(&self) -> bool {
        &&& catalog_wf(self@)
        &&& self.total == total_points(self@)
    }

    /// An empty catalog.
    pub fn new() -> (r: Catalog)
        ensures
            r.wf(),
            r@ == Seq::<ChallengeView>::empty(),
            r.infos() == Seq::<InfoView>::empty(),
    {
        let r = Catalog { scored: Vec::new(), info: Vec::new(), total: 0 };
        proof {
            assert(r@ =~= Seq::<ChallengeView>::empty());
            assert(r.infos() =~= Seq::<InfoView>::empty());
        }
        r
    }

    /// Look a scored challenge up by name.
    pub fn lookup(&self, name: &String) -> (r: Option<&ScoredChallenge>)
        requires
            self.wf(),
        ensures
            (match r {
                Some(c) => cat_lookup(self@, name@) == Some(c@),
                None => cat_lookup(self@, name@) is None,
            }),
    {
        let n = self.scored.len();
        let mut i: usize = 0;
        while i < n
            invariant
                n == self.scored.len(),
                i <= n,
                self.wf(),
                forall|j: int| 0 <= j < i ==> (#[trigger] self@[j]).name != name@,
            decreases n - i,
        {
            if self.scored[i].name == *name {
                proof {
                    assert(self@[i as int].name == name@);
                    lemma_lookup_found(self@, i as int);
                }
                return Some(&self.scored[i]);
            }
            proof {
                assert(self@[i as int].name != name@);
            }
            i += 1;
        }
        proof {
            lemma_lookup_not_found(self@, name@);
        }
        None
    }

    /// Check a candidate secret against the scored challenge of the given
    /// name: the challenge's point value when it matches, nothing when the
    /// challenge is unknown or the candidate is wrong.
    pub fn verify(&self, name: &String, candidate: &String) -> (r: Option<u64>)
        requires
            self.wf(),
        ensures
            (match r {
                Some(p) => cat_lookup(self@, name@) matches Some(ch) && ch.secret == candidate@
                    && p == ch.points,
                None => !(cat_lookup(self@, name@) matches Some(ch) && ch.secret == candidate@),
            }),
    {
        match self.lookup(name) {
            Some(c) => {
                if c.secret == *candidate {
                    Some(c.points)
                } else {
                    None
                }
            },
            None => None,
        }
    }

    /// Add a scored challenge at seed time. Returns whether it was accepted:
    /// a duplicate name, a zero point value, or a grand total that would no
    /// longer fit in a machine word is refused, and the catalog is unchanged.
    pub fn add_scored(&mut self, name: String, description: String, secret: String, points: u64)
        -> (r: bool)
        requires
            old(self).wf(),
        ensures
            final(self).wf(),
            r == (points > 0 && !cat_has(old(self)@, name@) && total_points(old(self)@) + points
                <= u64::MAX),
            r ==> final(self)@ == old(self)@.push(
                (ChallengeView {
                    name: name@,
                    description: description@,
                    secret: secret@,
                    points,
                }),
            ),
            r ==> final(self).infos() == old(self).infos(),
            !r ==> *final(self) == *old(self),
    {
        if points == 0 {
            return false;
        }
        if points > u64::MAX - self.total {
            return false;
        }
        if self.lookup(&name).is_some() {
            return false;
        }
        let ghost pre = *self;
        let ghost cv = ChallengeView {
            name: name@,
            description: description@,
            secret: secret@,
            points,
        };
        self.total = self.total + points;
        self.scored.push(ScoredChallenge { name, description, secret, points });
        proof {
            assert(self@ =~= pre@.push(cv));
            assert(self@.drop_last() =~= pre@);
            assert(total_points(self@) == points + total_points(pre@));
            lemma_not_found_no_index(pre@, cv.name);
            assert forall|i: int, j: int| 0 <= i < j < self@.len() implies self@[i].name
                != self@[j].name by {
                if j < self@.len() - 1 {
                    assert(pre@[i].name != pre@[j].name);
                } else {
                    assert(pre@[i].name != cv.name);
                }
            }
            assert(self.infos() =~= pre.infos());
        }
        true
    }

    /// Add an informational challenge at seed time.
    pub fn add_info(&mut self, name: String, link: String)
        requires
            old(self).wf(),
        ensures
            final(self).wf(),
            final(self)@ == old(self)@,
            final(self).infos() == old(self).infos().push(
                (InfoView { name: name@, link: link@ }),
            ),
    {
        let ghost pre = *self;
        let ghost iv = InfoView { name: name@, link: link@ };
        self.info.push(InfoChallenge { name, link });
        proof {
            assert(self@ =~= pre@);
            assert(self.infos() =~= pre.infos().push(iv));
        }
    }
}

} // verus!
