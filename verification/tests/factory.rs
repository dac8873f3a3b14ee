use dinochrome::factory::{BuildStep, LIVE_CAP, build_step};

#[test]
fn a_factory_below_its_cap_with_a_door_builds() {
    assert_eq!(build_step(0, 1), BuildStep::Build);
    assert_eq!(build_step(LIVE_CAP - 1, 4), BuildStep::Build);
}

#[test]
fn a_factory_at_or_over_its_cap_waits_whatever_its_doors() {
    assert_eq!(build_step(LIVE_CAP, 3), BuildStep::AtCapacity);
    assert_eq!(build_step(LIVE_CAP + 2, 0), BuildStep::AtCapacity);
}

#[test]
fn a_walled_in_factory_below_its_cap_is_blocked() {
    assert_eq!(build_step(2, 0), BuildStep::Blocked);
}
