use droptables::{AliasTable, OddsError, Share};
use droptables::odds::resolve_shares;

fn odds(num: u64, den: u64) -> Share {
    Share::Odds { num, den }
}

#[test]
fn odds_over_a_common_denominator() {
    let ws = resolve_shares(&[odds(1, 2), odds(1, 3), odds(1, 6)]).unwrap();
    assert_eq!(ws, vec![3, 2, 1]);
}

#[test]
fn rest_takes_what_is_left() {
    let ws = resolve_shares(&[odds(1, 100), Share::Rest, odds(9, 1000)]).unwrap();
    assert_eq!(ws, vec![10, 981, 9]);
    assert_eq!(ws.iter().sum::<i64>(), 1000);
}

#[test]
fn rest_alone_gets_everything() {
    assert_eq!(resolve_shares(&[Share::Rest]).unwrap(), vec![1]);
}

#[test]
fn rest_may_be_left_with_nothing() {
    assert_eq!(
        resolve_shares(&[odds(1, 4), odds(3, 4), Share::Rest]).unwrap(),
        vec![1, 3, 0]
    );
}

#[test]
fn zero_numerator_or_denominator_is_rejected_at_its_index() {
    assert_eq!(
        resolve_shares(&[odds(1, 2), odds(0, 2), odds(1, 0)]).unwrap_err(),
        OddsError::NotPositive { index: 1 }
    );
    assert_eq!(
        resolve_shares(&[Share::Rest, Share::Rest, odds(1, 0)]).unwrap_err(),
        OddsError::NotPositive { index: 2 }
    );
}

#[test]
fn two_rest_tags_are_rejected() {
    assert_eq!(
        resolve_shares(&[Share::Rest, odds(1, 2), Share::Rest]).unwrap_err(),
        OddsError::ManyRests
    );
}

#[test]
fn odds_over_one_with_rest_are_rejected() {
    assert_eq!(
        resolve_shares(&[odds(2, 3), odds(1, 2), Share::Rest]).unwrap_err(),
        OddsError::OverOne
    );
}

#[test]
fn odds_must_sum_to_one_without_rest() {
    assert_eq!(
        resolve_shares(&[odds(1, 2), odds(1, 3)]).unwrap_err(),
        OddsError::NotOne
    );
    assert_eq!(
        resolve_shares(&[odds(1, 2), odds(2, 3)]).unwrap_err(),
        OddsError::NotOne
    );
    assert_eq!(resolve_shares(&[]).unwrap_err(), OddsError::NotOne);
}

#[test]
fn huge_denominators_are_too_large() {
    assert_eq!(
        resolve_shares(&[odds(1, u64::MAX), Share::Rest]).unwrap_err(),
        OddsError::TooLarge
    );
    assert_eq!(
        resolve_shares(&[odds(1, 4_294_967_291), odds(1, 4_294_967_279), Share::Rest])
            .unwrap_err(),
        OddsError::TooLarge
    );
}

#[test]
fn resolved_weights_build_a_table() {
    let ws = resolve_shares(&[odds(1, 10), Share::Rest]).unwrap();
    assert_eq!(ws, vec![1, 9]);
    let t = AliasTable::new(&ws).unwrap();
    assert_eq!(t.len(), 2);
}

use droptables::odds_text::{parse_odds, OddsTextError};

#[test]
fn parses_plain_odds() {
    assert_eq!(parse_odds("1/100").unwrap(), odds(1, 100));
    assert_eq!(parse_odds("  3 / 4 ").unwrap(), odds(3, 4));
    assert_eq!(parse_odds("+2/5").unwrap(), odds(2, 5));
    assert_eq!(
        parse_odds("18446744073709551615/1").unwrap(),
        odds(u64::MAX, 1)
    );
}

#[test]
fn odds_text_needs_exactly_one_slash() {
    assert_eq!(parse_odds("1/2/3").unwrap_err(), OddsTextError::Shape);
    assert_eq!(parse_odds("12").unwrap_err(), OddsTextError::Shape);
    assert_eq!(parse_odds("").unwrap_err(), OddsTextError::Shape);
}

#[test]
fn odds_text_parts_must_be_whole_numbers() {
    assert_eq!(parse_odds("a/2").unwrap_err(), OddsTextError::Number);
    assert_eq!(parse_odds("1/").unwrap_err(), OddsTextError::Number);
    assert_eq!(parse_odds("1.5/2").unwrap_err(), OddsTextError::Number);
    assert_eq!(parse_odds("+/2").unwrap_err(), OddsTextError::Number);
    assert_eq!(
        parse_odds("18446744073709551616/1").unwrap_err(),
        OddsTextError::Number
    );
    assert_eq!(parse_odds("0/x").unwrap_err(), OddsTextError::Number);
}

#[test]
fn odds_text_parts_must_be_positive() {
    assert_eq!(parse_odds("0/5").unwrap_err(), OddsTextError::NotPositive);
    assert_eq!(parse_odds("5/ 0").unwrap_err(), OddsTextError::NotPositive);
}

#[test]
fn parsed_odds_resolve_to_weights() {
    let shares = [parse_odds("1/4").unwrap(), Share::Rest, parse_odds("1/8").unwrap()];
    assert_eq!(resolve_shares(&shares).unwrap(), vec![2, 5, 1]);
}
