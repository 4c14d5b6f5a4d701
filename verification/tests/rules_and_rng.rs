use luarus::rng::Rng;
use luarus::rule::Rule;

#[test]
fn slugs_are_unique() {
    let mut seen: Vec<&str> = Rule::all().iter().map(|r| r.slug()).collect();
    let count = seen.len();
    seen.sort_unstable();
    seen.dedup();
    assert_eq!(seen.len(), count, "two rules share a slug");
}

#[test]
fn every_rule_is_listed_in_all() {
    // The list is hand-written, so guard against a rule being added without it.
    assert_eq!(Rule::all().len(), 24);
}

#[test]
fn a_rule_states_itself() {
    assert_eq!(Rule::OverflowTraps.slug(), "overflow-traps");
    assert_eq!(Rule::NamesAreDeclaredOnce.statement(), "a name is declared once");
}

#[test]
fn a_seed_reproduces_its_sequence() {
    let take = |seed| {
        let mut r = Rng::new(seed);
        (0..32).map(|_| r.below(1000)).collect::<Vec<_>>()
    };
    assert_eq!(take(7), take(7));
    assert_ne!(take(7), take(8));
}

#[test]
fn below_stays_in_range() {
    let mut r = Rng::new(1);
    for _ in 0..1000 {
        assert!(r.below(10) < 10);
    }
}

#[test]
fn between_stays_in_range() {
    let mut r = Rng::new(2);
    for _ in 0..1000 {
        let v = r.between(-5, 5);
        assert!((-5..=5).contains(&v));
    }
}

#[test]
fn a_zero_seed_still_produces_a_sequence() {
    let mut r = Rng::new(0);
    let a: Vec<_> = (0..8).map(|_| r.below(100)).collect();
    assert!(a.iter().any(|&x| x != a[0]), "the sequence should not be constant");
}

#[test]
fn below_zero_is_zero_and_picks_come_from_the_slice() {
    let mut r = Rng::new(3);
    assert_eq!(r.below(0), 0);
    let xs = [10, 20, 30];
    assert!(xs.contains(r.pick(&xs)));
    assert!(!r.chance(0, 10));
    assert!(r.chance(10, 10));
    assert_eq!(r.between(4, 4), 4);
}
