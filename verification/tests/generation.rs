use rand::rngs::StdRng;
use rand::SeedableRng;

use enigmind::bitmask::BitMask;
use enigmind::code::Code;
use enigmind::error::EnigmindError;
use enigmind::rules::Rules;
use enigmind::setup::{generate_game, generate_rules, generate_verificators, GameConfiguration};

fn gc(base: u8, column_count: u8, min_difficulty: u8) -> GameConfiguration {
    GameConfiguration {
        column_count,
        base,
        min_difficulty,
    }
}

#[test]
fn every_generated_rule_passes_the_difficulty_filter() {
    let conf = gc(5, 3, 10);
    let rules = generate_rules(&conf).unwrap();
    let n = conf.solution_count() as usize;
    assert!(rules.len() > 0);
    for i in 0..rules.len() {
        let mask = rules.get(i).get_mask(&conf).unwrap();
        let ones = mask.count_ones();
        assert!(ones > 0);
        assert!(ones * 100 / n > conf.min_difficulty as usize);
    }
}

#[test]
fn generated_rules_hold_no_duplicates() {
    let conf = gc(4, 2, 0);
    let rules = generate_rules(&conf).unwrap();
    for i in 0..rules.len() {
        for j in 0..rules.len() {
            if i != j {
                assert!(rules.get(i) != rules.get(j));
            }
        }
    }
}

#[test]
fn retained_verifiers_come_in_descending_mask_population() {
    let mut rng = StdRng::seed_from_u64(21);
    let game = generate_game(&mut rng, 5, 3, 10).unwrap();
    for i in 1..game.criterias.len() {
        let prev = game.criterias.get(i - 1).verif.mask.count_ones();
        let cur = game.criterias.get(i).verif.mask.count_ones();
        assert!(prev >= cur);
    }
}

#[test]
fn each_description_belongs_to_a_group_of_its_rule() {
    let mut rng = StdRng::seed_from_u64(13);
    let game = generate_game(&mut rng, 5, 3, 10).unwrap();
    for i in 0..game.criterias.len() {
        let crit = game.criterias.get(i);
        let groups = crit.verif.rule.get_similar(&game.configuration);
        let mut matched = false;
        for (desc, rules) in &groups {
            if *desc == crit.description {
                matched = true;
                assert_eq!(rules.len(), crit.rules.len());
                for j in 0..rules.len() {
                    assert!(rules.get(j) == crit.rules.get(j));
                }
            }
        }
        assert!(matched);
    }
}

#[test]
fn generation_scenario_base5_columns3() {
    let mut rng = StdRng::seed_from_u64(7);
    let game = generate_game(&mut rng, 5, 3, 10).unwrap();
    assert_eq!(game.configuration.base, 5);
    assert_eq!(game.configuration.column_count, 3);
    assert_eq!(game.configuration.min_difficulty, 10);
    assert!(game.criterias.len() > 0);
    assert_eq!(game.code.0.len(), 3);
    for d in &game.code.0 {
        assert!(*d < 5);
    }

    // each criterion's decoy list contains its verifier's true rule
    for i in 0..game.criterias.len() {
        let crit = game.criterias.get(i);
        let mut found = false;
        for j in 0..crit.rules.len() {
            if *crit.rules.get(j) == crit.verif.rule {
                found = true;
            }
        }
        assert!(found);
    }

    // the AND of all verifiers' masks has exactly one set bit, decoding to
    // the secret code
    let n = game.configuration.solution_count() as usize;
    let mut all = BitMask::ones(n);
    for i in 0..game.criterias.len() {
        all = all.and(&game.criterias.get(i).verif.mask);
    }
    assert_eq!(all.count_ones(), 1);
    let decoded = Code::from_shift(all.trailing_zeros() as u32, &game.configuration);
    assert_eq!(decoded.0, game.code.0);

    // no verifier is redundant: dropping any one widens the intersection
    for skip in 0..game.criterias.len() {
        let mut rest = BitMask::ones(n);
        for i in 0..game.criterias.len() {
            if i != skip {
                rest = rest.and(&game.criterias.get(i).verif.mask);
            }
        }
        assert!(rest.count_ones() > 1);
    }
}

#[test]
fn generation_is_reproducible_under_a_fixed_seed() {
    let mut rng1 = StdRng::seed_from_u64(42);
    let mut rng2 = StdRng::seed_from_u64(42);
    let g1 = generate_game(&mut rng1, 5, 3, 10).unwrap();
    let g2 = generate_game(&mut rng2, 5, 3, 10).unwrap();
    assert_eq!(g1.code.0, g2.code.0);
    assert_eq!(g1.criterias.len(), g2.criterias.len());
    for i in 0..g1.criterias.len() {
        assert!(g1.criterias.get(i).verif == g2.criterias.get(i).verif);
        assert_eq!(g1.criterias.get(i).description, g2.criterias.get(i).description);
    }
}

#[test]
fn degenerate_base_one_yields_zero_criteria() {
    let mut rng = StdRng::seed_from_u64(1);
    let game = generate_game(&mut rng, 1, 3, 10).unwrap();
    assert_eq!(game.criterias.len(), 0);
    assert_eq!(game.code.0, vec![0, 0, 0]);
}

#[test]
fn masks_of_retained_verifiers_match_their_rules() {
    let mut rng = StdRng::seed_from_u64(3);
    let game = generate_game(&mut rng, 4, 2, 5).unwrap();
    for i in 0..game.criterias.len() {
        let verif = &game.criterias.get(i).verif;
        let recomputed = verif.rule.get_mask(&game.configuration).unwrap();
        assert!(recomputed == verif.mask);
    }
}

#[test]
fn empty_rule_universe_fails_generation() {
    let mut rng = StdRng::seed_from_u64(5);
    let conf = gc(2, 2, 0);
    let r = generate_verificators(&mut rng, &Rules(vec![]), &conf);
    assert!(matches!(r, Err(EnigmindError::GenerationFailed)));
}

#[test]
fn decoys_stay_in_the_family_of_the_true_rule() {
    let mut rng = StdRng::seed_from_u64(11);
    let game = generate_game(&mut rng, 5, 3, 10).unwrap();
    for i in 0..game.criterias.len() {
        let crit = game.criterias.get(i);
        assert!(crit.rules.len() >= 1);
        assert!(!crit.description.is_empty());
    }
}

#[test]
fn game_round_trips_through_its_encoding() {
    let mut rng = StdRng::seed_from_u64(9);
    let game = generate_game(&mut rng, 5, 3, 10).unwrap();
    let bytes = enigmind::codec::encode_game(&game).unwrap();
    let back = enigmind::codec::decode_game(&bytes).unwrap();

    assert_eq!(back.configuration, game.configuration);
    assert_eq!(back.code.0, game.code.0);
    assert_eq!(back.criterias.len(), game.criterias.len());
    for i in 0..game.criterias.len() {
        let a = game.criterias.get(i);
        let b = back.criterias.get(i);
        assert!(a.verif == b.verif);
        assert_eq!(a.description, b.description);
        assert_eq!(a.rules.len(), b.rules.len());
        for j in 0..a.rules.len() {
            assert!(a.rules.get(j) == b.rules.get(j));
        }
    }

    // a truncated encoding is rejected
    let mut cut = bytes.clone();
    cut.pop();
    assert!(enigmind::codec::decode_game(&cut).is_none());
    assert!(enigmind::codec::decode_game(&Vec::new()).is_none());
}
