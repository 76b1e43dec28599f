use tungsten::config_test::{check_api_key, count_unmatched, ApiKeyCheck};

#[test]
fn unmatched_inputs_are_warnings() {
    assert_eq!(count_unmatched(&[]), 0);
    assert_eq!(count_unmatched(&[3, 0, 1, 0]), 2);
    assert_eq!(count_unmatched(&[5]), 0);
}

#[test]
fn api_key_verdicts() {
    assert!(matches!(check_api_key(None), ApiKeyCheck::Missing));
    assert!(matches!(check_api_key(Some("")), ApiKeyCheck::Empty));
    assert!(matches!(check_api_key(Some("secret")), ApiKeyCheck::Present));
}
