use go_score::{Color, Stone};

#[test]
fn test_bitflag_accessors() {
    let mut stone = Stone::new();
    assert!(!stone.present_bit());
    assert!(!stone.dead_bit());
    assert!(!stone.color_bit());
    assert!(!stone.score_bit());
    assert!(!stone.score_color_bit());

    let bools = [false, true];
    for &color in &bools {
        for &score in &bools {
            for &present in &bools {
                for &dead in &bools {
                    for &score_color in &bools {
                        stone.set_present_bit(present);
                        stone.set_dead_bit(dead);
                        stone.set_color_bit(color);
                        stone.set_score_bit(score);
                        stone.set_score_color_bit(score_color);

                        assert_eq!(stone.present_bit(), present);
                        assert_eq!(stone.dead_bit(), dead);
                        assert_eq!(stone.color_bit(), color);
                        assert_eq!(stone.score_bit(), score);
                        assert_eq!(stone.score_color_bit(), score_color);
                    }
                }
            }
        }
    }
}

#[test]
fn test_stone_accessors() {
    let mut stone = Stone::new();
    assert!(!stone.is_present());
    assert!(!stone.is_dead());
    assert_eq!(stone.color(), None);
    assert_eq!(stone.score(), None);

    let colors = [None, Some(Color::Black), Some(Color::White)];
    let bools = [false, true];
    for &color in &colors {
        for &score in &colors {
            for &present in &bools {
                for &dead in &bools {
                    stone.set_color(color);
                    stone.set_score(score);
                    stone.set_dead(dead);

                    assert_eq!(stone.color(), color);
                    assert_eq!(stone.score(), score);
                    assert_eq!(stone.is_dead(), dead && stone.is_present());

                    assert_eq!(stone.is_present(), color.is_some());

                    stone.set_present(present);
                    assert_eq!(stone.is_present(), present);

                    if present && color.is_some() {
                        assert_eq!(stone.color(), color);
                    }

                    if !present {
                        assert_eq!(stone.color(), None);
                    }
                }
            }
        }
    }
}

#[test]
fn new_stone_is_the_zero_byte() {
    let stone = Stone::new();
    assert_eq!(stone.bits(), 0);
    assert!(!stone.processed_bit());
    assert_eq!(stone, Stone::from_bits(0));
}

#[test]
fn every_byte_survives_the_round_trip() {
    for byte in 0..=255u8 {
        assert_eq!(Stone::from_bits(byte).bits(), byte);
    }
}

#[test]
fn each_flag_has_its_own_bit() {
    assert!(Stone::from_bits(0x01).present_bit());
    assert!(Stone::from_bits(0x02).color_bit());
    assert!(Stone::from_bits(0x04).dead_bit());
    assert!(Stone::from_bits(0x08).score_bit());
    assert!(Stone::from_bits(0x10).score_color_bit());
    assert!(Stone::from_bits(0x20).processed_bit());

    let mut stone = Stone::new();
    stone.set_present_bit(true);
    assert_eq!(stone.bits(), 0x01);
    stone.set_color_bit(true);
    assert_eq!(stone.bits(), 0x03);
    stone.set_dead_bit(true);
    assert_eq!(stone.bits(), 0x07);
    stone.set_score_bit(true);
    assert_eq!(stone.bits(), 0x0f);
    stone.set_score_color_bit(true);
    assert_eq!(stone.bits(), 0x1f);
    stone.set_processed_bit(true);
    assert_eq!(stone.bits(), 0x3f);
    stone.set_dead_bit(false);
    assert_eq!(stone.bits(), 0x3b);
    stone.set_present_bit(false);
    assert_eq!(stone.bits(), 0x3a);
}

#[test]
fn every_accessor_reads_its_own_flag_of_every_byte() {
    for byte in 0..=255u8 {
        let stone = Stone::from_bits(byte);
        let present = byte & 0x01 != 0;
        let white = byte & 0x02 != 0;
        let dead = byte & 0x04 != 0;
        let scored = byte & 0x08 != 0;
        let score_white = byte & 0x10 != 0;
        assert_eq!(stone.present_bit(), present);
        assert_eq!(stone.color_bit(), white);
        assert_eq!(stone.dead_bit(), dead);
        assert_eq!(stone.score_bit(), scored);
        assert_eq!(stone.score_color_bit(), score_white);
        assert_eq!(stone.processed_bit(), byte & 0x20 != 0);

        assert_eq!(stone.is_present(), present);
        assert_eq!(stone.is_dead(), present && dead);
        let color = if !present {
            None
        } else if white {
            Some(Color::White)
        } else {
            Some(Color::Black)
        };
        assert_eq!(stone.color(), color);
        let score = if !scored {
            None
        } else if score_white {
            Some(Color::White)
        } else {
            Some(Color::Black)
        };
        assert_eq!(stone.score(), score);
    }
}

#[test]
fn setters_leave_the_other_bits_of_every_byte() {
    for byte in 0..=255u8 {
        for &on in &[false, true] {
            let mut stone = Stone::from_bits(byte);
            stone.set_present_bit(on);
            assert_eq!(stone.bits(), if on { byte | 0x01 } else { byte & !0x01 });
            let mut stone = Stone::from_bits(byte);
            stone.set_color_bit(on);
            assert_eq!(stone.bits(), if on { byte | 0x02 } else { byte & !0x02 });
            let mut stone = Stone::from_bits(byte);
            stone.set_dead_bit(on);
            assert_eq!(stone.bits(), if on { byte | 0x04 } else { byte & !0x04 });
            let mut stone = Stone::from_bits(byte);
            stone.set_score_bit(on);
            assert_eq!(stone.bits(), if on { byte | 0x08 } else { byte & !0x08 });
            let mut stone = Stone::from_bits(byte);
            stone.set_score_color_bit(on);
            assert_eq!(stone.bits(), if on { byte | 0x10 } else { byte & !0x10 });
            let mut stone = Stone::from_bits(byte);
            stone.set_processed_bit(on);
            assert_eq!(stone.bits(), if on { byte | 0x20 } else { byte & !0x20 });
        }
    }
}

#[test]
fn color_round_trip() {
    for byte in 0..=255u8 {
        for &color in &[None, Some(Color::Black), Some(Color::White)] {
            let mut stone = Stone::from_bits(byte);
            let score = stone.score();
            stone.set_color(color);
            assert_eq!(stone.color(), color);
            assert_eq!(stone.is_present(), color.is_some());
            assert_eq!(stone.score(), score);
            assert_eq!(stone.bits() & 0xfc, byte & 0xfc);
        }
    }
}

#[test]
fn score_round_trip() {
    for byte in 0..=255u8 {
        for &score in &[None, Some(Color::Black), Some(Color::White)] {
            let mut stone = Stone::from_bits(byte);
            let color = stone.color();
            let dead = stone.is_dead();
            stone.set_score(score);
            assert_eq!(stone.score(), score);
            assert_eq!(stone.color(), color);
            assert_eq!(stone.is_dead(), dead);
            assert_eq!(stone.bits() & 0xe7, byte & 0xe7);
        }
    }
}

#[test]
fn clearing_a_colour_or_a_score_keeps_its_colour_bit() {
    let mut stone = Stone::new();
    stone.set_color(Some(Color::White));
    stone.set_score(Some(Color::White));
    assert_eq!(stone.bits(), 0x1b);
    stone.set_color(None);
    assert_eq!(stone.bits(), 0x1a);
    stone.set_score(None);
    assert_eq!(stone.bits(), 0x12);
    assert_eq!(stone.color(), None);
    assert_eq!(stone.score(), None);
    stone.set_present(true);
    assert_eq!(stone.color(), Some(Color::White));
}

#[test]
fn a_point_without_a_stone_is_never_dead() {
    let mut stone = Stone::new();
    stone.set_dead(true);
    assert!(stone.dead_bit());
    assert!(!stone.is_dead());
    stone.set_color(Some(Color::Black));
    assert!(stone.is_dead());
    stone.set_dead(false);
    assert!(!stone.is_dead());
}
