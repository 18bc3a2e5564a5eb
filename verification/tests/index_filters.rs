use vawk::parsers::{parse_index_filters, IndexFilter};

#[test]
fn exact_matches_its_position_only() {
    let rule = IndexFilter::Exact(3);
    assert!(rule.is_match(3));
    assert!(!rule.is_match(2));
    assert!(!rule.is_match(4));
}

#[test]
fn bounded_is_half_open() {
    let rule = IndexFilter::Bounded(2, 5);
    assert!(!rule.is_match(1));
    assert!(rule.is_match(2));
    assert!(rule.is_match(4));
    assert!(!rule.is_match(5));
    assert!(!IndexFilter::Bounded(5, 2).is_match(3));
}

#[test]
fn lower_bounded_starts_at_its_bound() {
    let rule = IndexFilter::LowerBounded(5);
    assert!(!rule.is_match(4));
    assert!(rule.is_match(5));
    assert!(rule.is_match(usize::MAX));
}

#[test]
fn upper_bounded_stops_before_its_bound() {
    let rule = IndexFilter::UpperBounded(5);
    assert!(rule.is_match(0));
    assert!(rule.is_match(4));
    assert!(!rule.is_match(5));
    assert!(!IndexFilter::UpperBounded(0).is_match(0));
}

fn parsed(text: &str) -> Vec<IndexFilter> {
    match parse_index_filters(text) {
        Ok(filters) => filters,
        Err(error) => panic!("rejected with {:?}", error.0),
    }
}

fn rejected(text: &str) -> String {
    match parse_index_filters(text) {
        Ok(filters) => panic!("accepted as {:?}", filters),
        Err(error) => error.0,
    }
}

#[test]
fn empty_and_blank_input_give_no_rules() {
    assert_eq!(parsed(""), vec![]);
    assert_eq!(parsed("  \t "), vec![]);
}

#[test]
fn each_form_of_rule_is_read() {
    assert_eq!(parsed("4"), vec![IndexFilter::Exact(4)]);
    assert_eq!(parsed("6..10"), vec![IndexFilter::Bounded(6, 10)]);
    assert_eq!(parsed("5.."), vec![IndexFilter::LowerBounded(5)]);
    assert_eq!(parsed("..96"), vec![IndexFilter::UpperBounded(96)]);
    assert_eq!(parsed("007"), vec![IndexFilter::Exact(7)]);
}

#[test]
fn blanks_may_surround_commas_and_the_expression() {
    assert_eq!(
        parsed("  1 ,\t2..3,4.. , ..5  "),
        vec![
            IndexFilter::Exact(1),
            IndexFilter::Bounded(2, 3),
            IndexFilter::LowerBounded(4),
            IndexFilter::UpperBounded(5),
        ]
    );
}

#[test]
fn leftover_input_is_rejected_with_the_rest() {
    assert_eq!(rejected("x"), "x");
    assert_eq!(rejected("1, x"), ", x");
    assert_eq!(rejected("1,"), ",");
    assert_eq!(rejected("1 2"), "2");
    assert_eq!(rejected("1..2..3"), "..3");
    assert_eq!(rejected(".."), "..");
    assert_eq!(rejected("1,,2"), ",,2");
    assert_eq!(rejected("3 é"), "é");
}

#[test]
fn number_that_does_not_fit_is_not_read() {
    assert_eq!(
        parsed("18446744073709551615"),
        vec![IndexFilter::Exact(18446744073709551615)]
    );
    assert_eq!(rejected("18446744073709551616"), "18446744073709551616");
    assert_eq!(rejected("99999999999999999999999999"), "99999999999999999999999999");
    assert_eq!(
        rejected("5..99999999999999999999999999"),
        "99999999999999999999999999"
    );
}
