use deskthing::rng::{from_entropy, seeded, Rng};
use deskthing::species::CreatureType;
use rand::RngExt;

fn sample(rng: &mut Rng) -> Vec<u32> {
    (0..16).map(|_| rng.random_range(0..1_000_000u32)).collect()
}

#[test]
fn the_same_seed_replays_the_same_sequence() {
    assert_eq!(sample(&mut seeded(42)), sample(&mut seeded(42)));
}

#[test]
fn different_seeds_diverge() {
    assert_ne!(sample(&mut seeded(1)), sample(&mut seeded(2)));
}

#[test]
fn entropy_seeding_is_not_fixed() {
    assert_ne!(sample(&mut from_entropy()), sample(&mut from_entropy()));
}

#[test]
fn all_three_species_get_generated() {
    let mut rng = seeded(9);
    let mut seen = [false; 3];

    for _ in 0..200 {
        match CreatureType::random(&mut rng) {
            CreatureType::Red => seen[0] = true,
            CreatureType::Green => seen[1] = true,
            CreatureType::Blue => seen[2] = true,
        }
    }

    assert_eq!([true, true, true], seen);
}

#[test]
fn species_are_numbered_red_green_then_blue() {
    assert_eq!(CreatureType::Red, CreatureType::from_number(0));
    assert_eq!(CreatureType::Green, CreatureType::from_number(1));
    assert_eq!(CreatureType::Blue, CreatureType::from_number(2));
    assert_eq!(CreatureType::Blue, CreatureType::from_number(7));
}
