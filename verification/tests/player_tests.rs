use maze_escape::Player;

#[test]
fn fifty_damage_without_shield_halves_full_health() {
    let mut p = Player::new(0, 0, 0, 1_047_198);
    assert_eq!(p.health, 100);
    assert_eq!(p.shield, 0);
    p.apply_damage(50);
    assert_eq!(p.health, 50);
    assert_eq!(p.shield, 0);
}

#[test]
fn shield_absorbs_before_health_with_overflow() {
    let mut p = Player::new(0, 0, 0, 1_047_198);
    p.shield = 20;
    p.apply_damage(30);
    assert_eq!(p.shield, 0);
    assert_eq!(p.health, 90);
}

#[test]
fn damage_never_drops_health_below_zero() {
    let mut p = Player::new(0, 0, 0, 1_047_198);
    p.apply_damage(250);
    assert_eq!(p.health, 0);
}

#[test]
fn medkit_heals_health_up_to_the_maximum() {
    let mut p = Player::new(0, 0, 0, 1_047_198);
    p.apply_damage(40);
    p.pickup_medkit(25);
    assert_eq!(p.health, 85);
    p.pickup_medkit(25);
    assert_eq!(p.health, 100);
}

#[test]
fn medkit_at_full_health_charges_the_shield() {
    let mut p = Player::new(0, 0, 0, 1_047_198);
    p.pickup_medkit(25);
    assert_eq!(p.health, 100);
    assert_eq!(p.shield, 25);
}

#[test]
fn timers_count_down_and_stamina_regenerates() {
    let mut p = Player::new(0, 0, 0, 1_047_198);
    p.stamina = 0;
    p.binocular_timer = 10_000;
    p.update_timers(1_000);
    // 12 points per second, scaled by a million, over one millisecond.
    assert_eq!(p.stamina, 12_000);
    assert_eq!(p.binocular_timer, 9_000);
    p.binocular_timer = 500;
    p.update_timers(1_000);
    assert_eq!(p.binocular_timer, 0);
}

#[test]
fn binoculars_never_shorten_remaining_time() {
    let mut p = Player::new(0, 0, 0, 1_047_198);
    p.pickup_binoculars(60_000_000);
    assert_eq!(p.binocular_timer, 60_000_000);
    p.pickup_binoculars(1_000);
    assert_eq!(p.binocular_timer, 60_000_000);
}

#[test]
fn key_pickup_sets_the_flag() {
    let mut p = Player::new(0, 0, 0, 1_047_198);
    assert!(!p.has_key);
    p.pickup_key();
    assert!(p.has_key);
}
