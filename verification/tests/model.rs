use enigmind::bitmask::{BitMask, BitMaskError};
use enigmind::code::Code;
use enigmind::column::Column;
use enigmind::columns::ColumnSet;
use enigmind::error::EnigmindError;
use enigmind::rule::{Operator, Rule};
use enigmind::setup::{generate_game_configuration, GameConfiguration};
use enigmind::term_format::TermFormat;

fn gc_5_3() -> GameConfiguration {
    GameConfiguration {
        column_count: 3,
        base: 5,
        min_difficulty: 0,
    }
}

#[test]
fn test_combination() {
    let gc = GameConfiguration {
        column_count: 3,
        base: 5,
        min_difficulty: 0,
    };

    assert_eq!(gc.get_column_combinations(2).len(), 3);
}

#[test]
fn all_combinations_are_the_distinct_nonempty_subsets() {
    let gc = gc_5_3();
    let combos = gc.get_all_column_combinations();
    assert_eq!(combos.len(), 7);
    for cs in &combos {
        assert!(!cs.is_empty());
        for i in 0..cs.len() {
            assert!(cs.get(i).index() < 3);
        }
    }
    for i in 0..combos.len() {
        for j in 0..combos.len() {
            if i != j {
                assert!(combos[i] != combos[j]);
            }
        }
    }
}

#[test]
fn solution_count_is_base_to_the_column_count() {
    assert_eq!(gc_5_3().solution_count(), 125);
    let gc1 = GameConfiguration {
        column_count: 3,
        base: 1,
        min_difficulty: 0,
    };
    assert_eq!(gc1.solution_count(), 1);
}

#[test]
fn all_columns_and_pairs() {
    let gc = gc_5_3();
    let cols = gc.get_all_columns();
    assert_eq!(cols.len(), 3);
    assert_eq!(cols[1].index(), 1);
    let pairs = gc.get_all_column_pairs();
    assert_eq!(pairs.len(), 3);
    for (a, b) in &pairs {
        assert!(a.index() < b.index());
    }
    // lexicographic order and the closed-form count
    let wide = GameConfiguration {
        column_count: 5,
        base: 2,
        min_difficulty: 0,
    };
    let more = wide.get_all_column_pairs();
    assert_eq!(more.len(), 5 * 4 / 2);
    for w in more.windows(2) {
        let (a1, b1) = w[0];
        let (a2, b2) = w[1];
        assert!(a1.index() < a2.index() || (a1.index() == a2.index() && b1.index() < b2.index()));
    }
}

#[test]
fn shift_encoding_round_trips_for_every_shift() {
    let gc = gc_5_3();
    for shift in 0..125u32 {
        let code = Code::from_shift(shift, &gc);
        assert_eq!(code.get_shift(&gc), shift);
    }
}

#[test]
fn shift_encoding_concrete_values() {
    let gc = gc_5_3();
    let code = Code::new(vec![1, 2, 3]);
    assert_eq!(code.get_shift(&gc), 1 * 25 + 2 * 5 + 3);
    let back = Code::from_shift(38, &gc);
    assert_eq!(back.0, vec![1, 2, 3]);
    assert_eq!(Code::from_shift(0, &gc).0, vec![0, 0, 0]);
    assert_eq!(Code::from_shift(124, &gc).0, vec![4, 4, 4]);
}

#[test]
fn code_round_trips_through_its_shift() {
    let gc = gc_5_3();
    for a in 0..5u8 {
        for b in 0..5u8 {
            for c in 0..5u8 {
                let code = Code::new(vec![a, b, c]);
                let shift = code.get_shift(&gc);
                assert_eq!(Code::from_shift(shift, &gc).0, vec![a, b, c]);
            }
        }
    }
}

#[test]
fn code_from_decimal_digits() {
    assert_eq!(Code::from_decimal(123).0, vec![1, 2, 3]);
    assert_eq!(Code::from_decimal(0).0, Vec::<u8>::new());
    assert_eq!(Code::from_decimal(405).0, vec![4, 0, 5]);
}

#[test]
fn code_get_fails_outside_the_code() {
    let code = Code::new(vec![4, 1, 1]);
    assert_eq!(code.get(Column(0)), Ok(4));
    assert_eq!(code.get(Column(2)), Ok(1));
    assert_eq!(
        code.get(Column(3)),
        Err(EnigmindError::ColumnIndexOutOfBounds)
    );
}

#[test]
fn highest_is_true_only_for_a_unique_maximum() {
    let rule = Rule::MatchesOp(Operator::Highest, ColumnSet(vec![Column(0)]));
    assert_eq!(rule.evaluate(Code::new(vec![4, 1, 1])), Ok(true));
    assert_eq!(rule.evaluate(Code::new(vec![4, 4, 1])), Ok(false));
}

#[test]
fn lowest_is_true_only_for_a_unique_minimum() {
    let rule = Rule::MatchesOp(Operator::Lowest, ColumnSet(vec![Column(1)]));
    assert_eq!(rule.evaluate(Code::new(vec![4, 1, 2])), Ok(true));
    assert_eq!(rule.evaluate(Code::new(vec![4, 1, 1])), Ok(false));
    assert_eq!(rule.evaluate(Code::new(vec![0, 1, 2])), Ok(false));
}

#[test]
fn parity_rules_check_every_referenced_column() {
    let both = ColumnSet(vec![Column(0), Column(1)]);
    let pair = Rule::MatchesOp(Operator::Pair, both.clone());
    let impair = Rule::MatchesOp(Operator::Impair, both);
    assert_eq!(pair.evaluate(Code::new(vec![2, 4, 1])), Ok(true));
    assert_eq!(pair.evaluate(Code::new(vec![2, 3, 1])), Ok(false));
    assert_eq!(impair.evaluate(Code::new(vec![1, 3, 2])), Ok(true));
    assert_eq!(impair.evaluate(Code::new(vec![1, 2, 2])), Ok(false));
}

#[test]
fn sum_rules_compare_the_referenced_digits() {
    let cols = ColumnSet(vec![Column(0), Column(2)]);
    let below = Rule::MatchesOp(Operator::SumBelow(6), cols.clone());
    let equals = Rule::MatchesOp(Operator::SumEquals(6), cols.clone());
    let above = Rule::MatchesOp(Operator::SumAbove(6), cols);
    let code = Code::new(vec![4, 0, 2]);
    assert_eq!(below.evaluate(code.clone()), Ok(false));
    assert_eq!(equals.evaluate(code.clone()), Ok(true));
    assert_eq!(above.evaluate(code), Ok(false));
}

#[test]
fn x_columns_equals_counts_across_the_whole_code() {
    let rule = Rule::XColumnsEquals(2, 1);
    assert_eq!(rule.evaluate(Code::new(vec![4, 1, 1])), Ok(true));
    assert_eq!(rule.evaluate(Code::new(vec![1, 1, 1])), Ok(false));
    let none = Rule::XColumnsEquals(0, 3);
    assert_eq!(none.evaluate(Code::new(vec![4, 1, 1])), Ok(true));
}

#[test]
fn evaluate_fails_on_a_missing_column() {
    let rule = Rule::MatchesOp(Operator::Pair, ColumnSet(vec![Column(5)]));
    assert_eq!(
        rule.evaluate(Code::new(vec![1, 2, 3])),
        Err(EnigmindError::ColumnIndexOutOfBounds)
    );
}

#[test]
fn evaluate_is_pure() {
    let rule = Rule::MatchesOp(Operator::Highest, ColumnSet(vec![Column(0)]));
    let a = rule.evaluate(Code::new(vec![4, 1, 1]));
    let b = rule.evaluate(Code::new(vec![4, 1, 1]));
    assert_eq!(a, b);
}

#[test]
fn mask_of_a_rule_marks_exactly_the_satisfying_codes() {
    let gc = gc_5_3();
    let rule = Rule::XColumnsEquals(3, 0);
    let mask = rule.get_mask(&gc).unwrap();
    assert_eq!(mask.len(), 125);
    assert_eq!(mask.count_ones(), 1);
    assert_eq!(mask.get(0), Ok(true));
    let pair_a = Rule::MatchesOp(Operator::Pair, ColumnSet(vec![Column(0)]));
    let mask2 = pair_a.get_mask(&gc).unwrap();
    // digits 0, 2, 4 in column A: three fifths of the space
    assert_eq!(mask2.count_ones(), 75);
}

#[test]
fn get_mask_fails_on_an_out_of_range_rule() {
    let gc = gc_5_3();
    let rule = Rule::MatchesOp(Operator::Pair, ColumnSet(vec![Column(7)]));
    assert!(matches!(
        rule.get_mask(&gc),
        Err(EnigmindError::ColumnIndexOutOfBounds)
    ));
}

#[test]
fn bitmask_operations() {
    let mut m = BitMask::zeros(8);
    assert_eq!(m.len(), 8);
    assert_eq!(m.count_ones(), 0);
    assert_eq!(m.set(3, true), Ok(()));
    assert_eq!(m.set(8, true), Err(BitMaskError::IndexOutOfRange));
    assert_eq!(m.get(3), Ok(true));
    assert_eq!(m.get(8), Err(BitMaskError::IndexOutOfRange));
    assert_eq!(m.count_ones(), 1);
    assert_eq!(m.trailing_zeros(), 3);
    assert_eq!(BitMask::zeros(4).trailing_zeros(), 4);

    let ones = BitMask::ones(8);
    assert_eq!(ones.count_ones(), 8);
    assert_eq!(ones.trailing_zeros(), 0);

    let anded = m.and(&ones);
    assert_eq!(anded.count_ones(), 1);
    assert!(anded == m);
    let ored = m.or(&ones);
    assert!(ored == ones);
    assert!(m != ones);
}

#[test]
fn error_wraps_bitmask_errors() {
    let e: EnigmindError = BitMaskError::IndexOutOfRange.into();
    assert!(matches!(
        e,
        EnigmindError::BitmaskError(BitMaskError::IndexOutOfRange)
    ));
}

#[test]
fn clamped_difficulty() {
    let gc = generate_game_configuration(5, 3, 255);
    assert_eq!(gc.min_difficulty, 100);
    let gc2 = generate_game_configuration(5, 3, 10);
    assert_eq!(gc2.min_difficulty, 10);
    assert_eq!(gc2.base, 5);
    assert_eq!(gc2.column_count, 3);
}

#[test]
fn display_strings() {
    assert_eq!(Column(0).letter(), 'A');
    assert_eq!(Column(25).letter(), 'Z');
    assert_eq!(Column(26).letter(), '?');
    assert_eq!(Column(1).display_string(), "B");
    let cs = ColumnSet(vec![Column(0), Column(1)]);
    assert_eq!(cs.display_string(), "[A, B]");
    assert_eq!(Code::new(vec![4, 1, 1]).display_string(), "411");
    let rule = Rule::MatchesOp(Operator::Highest, ColumnSet(vec![Column(0)]));
    assert_eq!(rule.display_string(), "IsHighest([A])");
    let sum = Rule::MatchesOp(Operator::SumBelow(12), ColumnSet(vec![Column(0), Column(2)]));
    assert_eq!(sum.display_string(), "SumBelow([A, C], 12)");
    assert_eq!(Rule::XColumnsEquals(2, 1).display_string(), "XColumnsEquals(2, 1)");
    assert_eq!(Operator::SumEquals(3).display_string(), "equal to");
    let padded = rule.formatted();
    assert_eq!(padded.len(), 25);
    assert!(padded.starts_with("IsHighest([A])"));
}

#[test]
fn similar_groups_contain_the_true_rule() {
    let gc = gc_5_3();
    let rule = Rule::MatchesOp(Operator::Pair, ColumnSet(vec![Column(1)]));
    let groups = rule.get_similar(&gc);
    assert_eq!(groups.len(), 2);
    assert_eq!(groups[0].0, "Column is pair or impair");
    assert_eq!(groups[0].1.len(), 2);
    // the alternatives group lists the operator over every one-column set
    assert_eq!(groups[1].1.len(), 3);
    for (_, rules) in &groups {
        assert!((0..rules.len()).any(|i| *rules.get(i) == rule));
    }

    let sum = Rule::MatchesOp(Operator::SumEquals(4), ColumnSet(vec![Column(0), Column(2)]));
    let sum_groups = sum.get_similar(&gc);
    assert_eq!(sum_groups.len(), 2);
    assert_eq!(sum_groups[0].1.len(), 3);
    assert_eq!(
        sum_groups[0].0,
        "Column(s) [A, C] sum is below, equal or above 4"
    );
    for (_, rules) in &sum_groups {
        assert!((0..rules.len()).any(|i| *rules.get(i) == sum));
    }

    let xcols = Rule::XColumnsEquals(2, 3);
    let x_groups = xcols.get_similar(&gc);
    assert_eq!(x_groups.len(), 1);
    assert_eq!(x_groups[0].0, "There are X columns that equals 3");
    assert_eq!(x_groups[0].1.len(), 4);
    for i in 0..x_groups[0].1.len() {
        assert!(*x_groups[0].1.get(i) == Rule::XColumnsEquals(i as u8, 3));
    }
}

#[test]
fn column_index_of_any_letter() {
    let game = enigmind::setup::Game {
        configuration: gc_5_3(),
        criterias: enigmind::criterias::Criterias(vec![]),
        code: Code::new(vec![0, 0, 0]),
    };
    // letters past the last column still map to their index
    assert_eq!(game.to_column_index('Z'), 25);
    assert_eq!(game.to_column_index('A'), 0);
    assert!(!game.is_column_compatible('Z'));
}

#[test]
fn game_compatibility_checks() {
    let game = enigmind::setup::Game {
        configuration: gc_5_3(),
        criterias: enigmind::criterias::Criterias(vec![]),
        code: Code::new(vec![1, 2, 3]),
    };
    assert!(game.is_solution_compatible(&Code::new(vec![0, 4, 2])));
    assert!(!game.is_solution_compatible(&Code::new(vec![0, 5, 2])));
    assert!(!game.is_solution_compatible(&Code::new(vec![0, 4])));
    assert!(game.is_column_compatible('A'));
    assert!(game.is_column_compatible('C'));
    assert!(!game.is_column_compatible('D'));
    assert!(!game.is_column_compatible('@'));
    assert_eq!(game.to_column_index('B'), 1);
    assert!(game.is_value_compatible(4));
    assert!(!game.is_value_compatible(5));
}

#[test]
fn encoding_rejects_an_oversized_column_set() {
    let cols: Vec<Column> = (0..=255u8).map(Column).collect();
    let game = enigmind::setup::Game {
        configuration: gc_5_3(),
        criterias: enigmind::criterias::Criterias(vec![enigmind::criteria::Criteria {
            verif: enigmind::verifiers::Verifier {
                rule: Rule::MatchesOp(Operator::Pair, ColumnSet(cols)),
                mask: BitMask::zeros(1),
            },
            description: String::new(),
            rules: enigmind::rules::Rules(vec![]),
        }]),
        code: Code::new(vec![0, 0, 0]),
    };
    assert!(enigmind::codec::encode_game(&game).is_none());
}
