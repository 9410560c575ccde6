use prolog::catalog::Catalog;
use prolog::ledger::Ledger;
use prolog::outcome::StoreError;
use prolog::scores::ScoreStore;

fn s(x: &str) -> String {
    x.to_string()
}

#[test]
fn catalog_refuses_duplicate_names() {
    let mut cat = Catalog::new();
    assert!(cat.add_scored(s("crypto1"), s("one"), s("FLAG{a}"), 100));
    assert!(!cat.add_scored(s("crypto1"), s("two"), s("FLAG{b}"), 200));
    assert_eq!(cat.scored.len(), 1);
    assert_eq!(cat.scored[0].points, 100);
}

#[test]
fn catalog_refuses_zero_points() {
    let mut cat = Catalog::new();
    assert!(!cat.add_scored(s("freebie"), s("zero"), s("FLAG{z}"), 0));
    assert_eq!(cat.scored.len(), 0);
}

#[test]
fn catalog_refuses_a_total_past_the_word_size() {
    let mut cat = Catalog::new();
    assert!(cat.add_scored(s("big"), s("huge"), s("FLAG{h}"), u64::MAX));
    assert!(!cat.add_scored(s("straw"), s("one more"), s("FLAG{s}"), 1));
    assert_eq!(cat.scored.len(), 1);
}

#[test]
fn catalog_verify_checks_name_and_secret() {
    let mut cat = Catalog::new();
    assert!(cat.add_scored(s("crypto1"), s("an easy cipher"), s("FLAG{abc}"), 100));
    assert_eq!(cat.verify(&s("crypto1"), &s("FLAG{abc}")), Some(100));
    assert_eq!(cat.verify(&s("crypto1"), &s("FLAG{abd}")), None);
    assert_eq!(cat.verify(&s("crypto2"), &s("FLAG{abc}")), None);
}

#[test]
fn ledger_credits_a_pair_exactly_once() {
    let mut led = Ledger::new();
    assert!(!led.is_credited(&s("crypto1"), &s("alpha")));
    assert!(led.try_credit(&s("crypto1"), &s("alpha")));
    assert!(led.is_credited(&s("crypto1"), &s("alpha")));
    assert!(!led.try_credit(&s("crypto1"), &s("alpha")));
    assert!(led.try_credit(&s("crypto1"), &s("bravo")));
    assert!(led.try_credit(&s("pwn1"), &s("alpha")));
    assert_eq!(led.records.len(), 3);
}

#[test]
fn score_store_increments_atomically_and_reports_missing_teams() {
    let mut st = ScoreStore::new();
    st.register(s("alpha"));
    assert_eq!(st.get_points(&s("alpha")), Some(0));
    assert_eq!(st.increment(&s("alpha"), 100), Ok(()));
    assert_eq!(st.increment(&s("alpha"), 250), Ok(()));
    assert_eq!(st.get_points(&s("alpha")), Some(350));
    assert_eq!(st.increment(&s("ghost"), 10), Err(StoreError::NotFound));
    assert_eq!(st.get_points(&s("ghost")), None);
    assert!(st.resolve(&s("alpha")));
    assert!(!st.resolve(&s("ghost")));
}

#[test]
fn registering_twice_keeps_one_row() {
    let mut st = ScoreStore::new();
    st.register(s("alpha"));
    assert_eq!(st.increment(&s("alpha"), 42), Ok(()));
    st.register(s("alpha"));
    assert_eq!(st.get_points(&s("alpha")), Some(42));
    assert_eq!(st.teams.len(), 1);
}
