use kvcore::random::Random;

#[test]
fn random() {
    let mut r = Random::new(0);
    assert_eq!(r.seed, 1);

    r = Random::new(2147483647);
    assert_eq!(r.seed, 1);

    r = Random::new(7);
    assert_eq!(r.next(), 117649);
    assert_eq!(r.uniform(11), 7);
    assert_eq!(r.one_in(5), false);
    assert_eq!(r.skewed(3), 1);
}

#[test]
fn seed_stays_in_range() {
    let mut r = Random::new(301);
    for _ in 0..10000 {
        let v = r.next();
        assert!(v >= 1);
        assert!(v <= 2147483646);
    }
}
