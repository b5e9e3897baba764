use dungeon_core::dice::{parse_dice, DiceRoll};
use dungeon_core::rng::GameRNG;

#[test]
fn parses_full_dice_notation() {
    assert_eq!(parse_dice(b"3d6+2"), Some(DiceRoll { count: 3, sides: 6, modifier: 2 }));
    assert_eq!(parse_dice(b"2d10-4"), Some(DiceRoll { count: 2, sides: 10, modifier: -4 }));
    assert_eq!(parse_dice(b"d20"), Some(DiceRoll { count: 1, sides: 20, modifier: 0 }));
    assert_eq!(parse_dice(b"12d4"), Some(DiceRoll { count: 12, sides: 4, modifier: 0 }));
}

#[test]
fn rejects_malformed_dice() {
    assert_eq!(parse_dice(b""), None);
    assert_eq!(parse_dice(b"3x6"), None);
    assert_eq!(parse_dice(b"3d"), None);
    assert_eq!(parse_dice(b"3d6+"), None);
    assert_eq!(parse_dice(b"ad6"), None);
    assert_eq!(parse_dice(b"3d6+2+1"), None);
    assert_eq!(parse_dice(b"99999999999d6"), None);
}

#[test]
fn dice_rolls_stay_in_range() {
    let mut rng = GameRNG::new();
    for _ in 0..100 {
        let v = rng.rand_dice("3d6+2").unwrap();
        assert!((5..=20).contains(&v));
        let w = rng.rand_dice("d4-1").unwrap();
        assert!((0..=3).contains(&w));
    }
    assert_eq!(rng.rand_dice("2d1+3"), Some(5));
    assert_eq!(rng.rand_dice("0d6+7"), Some(7));
    assert_eq!(rng.rand_dice("3d0"), None);
    assert_eq!(rng.rand_dice("not dice"), None);
    assert_eq!(rng.rand_dice("2147483647d2147483647"), None);
}

#[test]
fn nul_byte_is_no_sign() {
    assert_eq!(parse_dice(b"2d6\x003"), None);
}

#[test]
fn dice_total_adds_rolls_and_modifier() {
    assert_eq!(dungeon_core::dice::dice_total(&vec![3, 5, 6], -4), 10);
    assert_eq!(dungeon_core::dice::dice_total(&vec![], 7), 7);
}
