use prolog::catalog::Catalog;
use prolog::engine::Engine;
use prolog::outcome::Outcome;

fn s(x: &str) -> String {
    x.to_string()
}

fn seeded() -> Engine {
    let mut cat = Catalog::new();
    assert!(cat.add_scored(s("crypto1"), s("an easy cipher"), s("FLAG{abc}"), 100));
    assert!(cat.add_scored(s("pwn1"), s("a stack smash"), s("FLAG{pwn}"), 250));
    cat.add_info(s("warmup"), s("https://example.test/warmup"));
    let mut e = Engine::new(cat);
    e.register_team(s("alpha"));
    e.register_team(s("bravo"));
    e
}

fn points_of(e: &Engine, team: &str) -> u64 {
    e.team_points(&s(team)).expect("team should be known")
}

#[test]
fn scenario_double_submit_then_wrong() {
    let mut e = seeded();
    let r1 = e.submit(&s("alpha"), &s("crypto1"), &s("FLAG{abc}"));
    let r2 = e.submit(&s("alpha"), &s("crypto1"), &s("FLAG{abc}"));
    assert_eq!(r1, Outcome::Correct(100));
    assert_eq!(r2, Outcome::AlreadyCredited);
    let scores = e.all_scores();
    let alpha = scores.iter().find(|p| p.0 == "alpha").expect("alpha listed");
    assert_eq!(alpha.1, 100);
    let r3 = e.submit(&s("alpha"), &s("crypto1"), &s("wrong"));
    assert_eq!(r3, Outcome::Incorrect);
    assert_eq!(points_of(&e, "alpha"), 100);
}

#[test]
fn correct_submission_credits_once_per_pair() {
    let mut e = seeded();
    assert_eq!(e.submit(&s("alpha"), &s("crypto1"), &s("FLAG{abc}")), Outcome::Correct(100));
    assert_eq!(e.submit(&s("alpha"), &s("pwn1"), &s("FLAG{pwn}")), Outcome::Correct(250));
    assert_eq!(e.submit(&s("bravo"), &s("pwn1"), &s("FLAG{pwn}")), Outcome::Correct(250));
    assert_eq!(points_of(&e, "alpha"), 350);
    assert_eq!(points_of(&e, "bravo"), 250);
    // A second wave of identical submissions credits nothing further.
    assert_eq!(e.submit(&s("alpha"), &s("crypto1"), &s("FLAG{abc}")), Outcome::AlreadyCredited);
    assert_eq!(e.submit(&s("alpha"), &s("pwn1"), &s("FLAG{pwn}")), Outcome::AlreadyCredited);
    assert_eq!(e.submit(&s("bravo"), &s("pwn1"), &s("FLAG{pwn}")), Outcome::AlreadyCredited);
    assert_eq!(points_of(&e, "alpha"), 350);
    assert_eq!(points_of(&e, "bravo"), 250);
}

#[test]
fn scores_equal_reconstruction_from_ledger() {
    let mut e = seeded();
    e.submit(&s("alpha"), &s("crypto1"), &s("FLAG{abc}"));
    e.submit(&s("alpha"), &s("pwn1"), &s("FLAG{pwn}"));
    e.submit(&s("bravo"), &s("pwn1"), &s("FLAG{pwn}"));
    e.submit(&s("bravo"), &s("crypto1"), &s("nope"));
    for (team, total) in e.all_scores() {
        let solved = e.solved_challenges(&team).expect("listed team is known");
        let mut rebuilt: u64 = 0;
        for name in &solved {
            let ch = e
                .scored_challenges()
                .iter()
                .find(|c| &c.name == name)
                .expect("solved name is in the catalog");
            rebuilt += ch.points;
        }
        assert_eq!(total, rebuilt);
    }
}

#[test]
fn wrong_guesses_are_free() {
    let mut e = seeded();
    for _ in 0..5 {
        assert_eq!(e.submit(&s("alpha"), &s("crypto1"), &s("nope")), Outcome::Incorrect);
    }
    assert_eq!(points_of(&e, "alpha"), 0);
    assert_eq!(e.solved_challenges(&s("alpha")).expect("known"), Vec::<String>::new());
    // A correct submission afterwards still wins its full credit ...
    assert_eq!(e.submit(&s("alpha"), &s("crypto1"), &s("FLAG{abc}")), Outcome::Correct(100));
    // ... and retrying the correct secret is told the credit already stands.
    assert_eq!(e.submit(&s("alpha"), &s("crypto1"), &s("FLAG{abc}")), Outcome::AlreadyCredited);
    assert_eq!(points_of(&e, "alpha"), 100);
}

#[test]
fn unknown_team_is_rejected_without_mutation() {
    let mut e = seeded();
    let before = e.all_scores();
    assert_eq!(e.submit(&s("nobody"), &s("crypto1"), &s("FLAG{abc}")), Outcome::UnknownTeam);
    assert_eq!(e.all_scores(), before);
    assert_eq!(e.solved_challenges(&s("nobody")), None);
    assert_eq!(e.team_points(&s("nobody")), None);
}

#[test]
fn unknown_challenge_is_rejected_without_mutation() {
    let mut e = seeded();
    let before = e.all_scores();
    assert_eq!(e.submit(&s("alpha"), &s("web9"), &s("FLAG{abc}")), Outcome::UnknownChallenge);
    assert_eq!(e.all_scores(), before);
    assert_eq!(e.solved_challenges(&s("alpha")).expect("known"), Vec::<String>::new());
}

#[test]
fn informational_challenge_is_not_verifiable() {
    let mut e = seeded();
    assert_eq!(e.submit(&s("alpha"), &s("warmup"), &s("anything")), Outcome::UnknownChallenge);
    assert_eq!(points_of(&e, "alpha"), 0);
}

#[test]
fn retried_submission_has_the_effect_of_one() {
    let mut e = seeded();
    let first = e.submit(&s("alpha"), &s("crypto1"), &s("FLAG{abc}"));
    assert_eq!(first, Outcome::Correct(100));
    let after_one_scores = e.all_scores();
    let after_one_solved = e.solved_challenges(&s("alpha")).expect("known");
    let retry = e.submit(&s("alpha"), &s("crypto1"), &s("FLAG{abc}"));
    assert_eq!(retry, Outcome::AlreadyCredited);
    assert_eq!(e.all_scores(), after_one_scores);
    assert_eq!(e.solved_challenges(&s("alpha")).expect("known"), after_one_solved);
}

#[test]
fn solved_list_follows_catalog_order() {
    let mut e = seeded();
    e.submit(&s("alpha"), &s("pwn1"), &s("FLAG{pwn}"));
    e.submit(&s("alpha"), &s("crypto1"), &s("FLAG{abc}"));
    assert_eq!(
        e.solved_challenges(&s("alpha")).expect("known"),
        vec![s("crypto1"), s("pwn1")]
    );
}

#[test]
fn registering_a_known_team_keeps_its_points() {
    let mut e = seeded();
    e.submit(&s("alpha"), &s("crypto1"), &s("FLAG{abc}"));
    e.register_team(s("alpha"));
    assert_eq!(points_of(&e, "alpha"), 100);
    assert_eq!(e.all_scores().len(), 2);
}

#[test]
fn roster_batch_adds_new_names_with_zero_points() {
    let mut e = seeded();
    e.submit(&s("bravo"), &s("pwn1"), &s("FLAG{pwn}"));
    e.register_teams(vec![s("bravo"), s("charlie"), s("delta")]);
    assert_eq!(points_of(&e, "bravo"), 250);
    assert_eq!(points_of(&e, "charlie"), 0);
    assert_eq!(points_of(&e, "delta"), 0);
    assert_eq!(e.all_scores().len(), 4);
}

#[test]
fn listings_expose_the_seeded_catalog() {
    let e = seeded();
    let scored = e.scored_challenges();
    assert_eq!(scored.len(), 2);
    assert_eq!(scored[0].name, "crypto1");
    assert_eq!(scored[0].description, "an easy cipher");
    assert_eq!(scored[0].points, 100);
    assert_eq!(scored[1].name, "pwn1");
    let info = e.info_challenges();
    assert_eq!(info.len(), 1);
    assert_eq!(info[0].name, "warmup");
    assert_eq!(info[0].link, "https://example.test/warmup");
}
