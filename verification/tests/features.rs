use backend_showdown_2026::features::{is_approved, is_known_merchant, mcc_risk};

#[test]
fn mcc_risk_follows_the_category_table() {
    assert_eq!(mcc_risk("4511"), 35);
    assert_eq!(mcc_risk("5311"), 25);
    assert_eq!(mcc_risk("5411"), 15);
    assert_eq!(mcc_risk("5812"), 30);
    assert_eq!(mcc_risk("5912"), 20);
    assert_eq!(mcc_risk("5944"), 45);
    assert_eq!(mcc_risk("5999"), 50);
    assert_eq!(mcc_risk("7801"), 80);
    assert_eq!(mcc_risk("7802"), 75);
    assert_eq!(mcc_risk("7995"), 85);
}

#[test]
fn mcc_risk_defaults_to_one_half() {
    assert_eq!(mcc_risk("0000"), 50);
    assert_eq!(mcc_risk(""), 50);
    assert_eq!(mcc_risk("54111"), 50);
    assert_eq!(mcc_risk("541"), 50);
    assert_eq!(mcc_risk("54a1"), 50);
    assert_eq!(mcc_risk(" 5411"), 50);
}

#[test]
fn mcc_risk_matches_the_fractional_table_as_hundredths() {
    assert_eq!(mcc_risk("5411") as f64 / 100.0, 0.15);
    assert_eq!(mcc_risk("4511") as f64 / 100.0, 0.35);
    assert_eq!(mcc_risk("9999") as f64 / 100.0, 0.5);
}

#[test]
fn known_merchant_is_found_by_exact_id() {
    let known = vec!["m-1".to_string(), "m-22".to_string()];
    assert!(is_known_merchant(&known, &"m-22".to_string()));
    assert!(!is_known_merchant(&known, &"m-2".to_string()));
    assert!(!is_known_merchant(&[], &"m-1".to_string()));
}

#[test]
fn approval_needs_a_score_below_six_tenths() {
    assert!(is_approved(0));
    assert!(is_approved(1));
    assert!(is_approved(2));
    assert!(!is_approved(3));
    assert!(!is_approved(4));
    assert!(!is_approved(5));
    for count in 0..=5usize {
        assert_eq!(is_approved(count), (count as f64 / 5.0) < 0.6);
    }
}
