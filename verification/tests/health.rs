use dinochrome::health::Health;

/// Health left as a fraction of full, with an overkill read as empty.
fn fraction(health: &Health) -> f32 {
    health.remaining() as f32 / health.max() as f32
}

#[test]
fn something_new_is_at_full_health() {
    let health = Health::new(100);
    assert_eq!(health.current(), 100);
    assert_eq!(health.max(), 100);
    assert_eq!(fraction(&health), 1.0);
    assert!(!health.is_dead());
}

#[test]
fn damage_comes_off_the_top_without_killing_early() {
    let mut health = Health::new(100);
    assert!(!health.damage(20));
    assert_eq!(health.current(), 80);
    assert_eq!(fraction(&health), 0.8);
    assert!(!health.is_dead());
}

#[test]
fn the_blow_that_empties_it_is_the_one_that_reports_the_kill() {
    let mut health = Health::new(60);
    assert!(!health.damage(20));
    assert!(!health.damage(20));
    assert!(health.damage(20), "the third shell should finish it");
    assert!(health.is_dead());
}

#[test]
fn only_one_blow_can_ever_claim_the_kill() {
    let mut health = Health::new(20);
    assert!(health.damage(20));
    assert!(!health.damage(20), "a second hit must not kill it again");
    assert!(!health.damage(999));
}

#[test]
fn an_overkill_reads_as_empty_rather_than_as_negative() {
    let mut health = Health::new(20);
    assert!(health.damage(500));
    assert!(health.current() < 0, "the arithmetic is not clamped");
    assert_eq!(fraction(&health), 0.0, "but what is displayed is");
}

#[test]
fn damage_of_zero_or_less_changes_nothing() {
    let mut health = Health::new(100);
    assert!(!health.damage(0));
    assert!(!health.damage(-50));
    assert_eq!(health.current(), 100);
}

#[test]
fn the_largest_blow_on_the_smallest_health_does_not_overflow() {
    let mut health = Health::new(1);
    assert!(health.damage(i32::MAX));
    assert_eq!(health.current(), 1 - i32::MAX);
    assert!(!health.damage(i32::MAX));
    assert_eq!(health.current(), 1 - i32::MAX);
    assert_eq!(health.remaining(), 0);
}

#[test]
fn only_the_first_blow_that_empties_the_bar_claims_the_kill() {
    let mut health = Health::new(50);
    let blows = [10, -5, 0, 25, 15, 20, 999, 1];
    let mut kills = Vec::new();
    for (k, amount) in blows.iter().enumerate() {
        let alive_before = !health.is_dead();
        if health.damage(*amount) {
            assert!(alive_before && health.is_dead());
            kills.push(k);
        }
    }
    assert_eq!(kills, vec![4]);
    assert_eq!(health.current(), 0);
}
