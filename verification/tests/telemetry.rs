use lau_signal_processing::telemetry::{count_sign_changes, flagged_indices};

#[test]
fn flagged_indices_in_order() {
    assert_eq!(flagged_indices(&[false, true, true, false, true]), vec![1, 2, 4]);
    assert!(flagged_indices(&[false, false]).is_empty());
    assert!(flagged_indices(&[]).is_empty());
}

#[test]
fn flagged_indices_from_errors() {
    let errors = [0.1, 0.2, 9.0, 0.1, 0.3];
    let flags: Vec<bool> = errors.iter().map(|&e| e > 1.0).collect();
    assert_eq!(flagged_indices(&flags), vec![2]);
}

#[test]
fn count_sign_changes_values() {
    let values = [1.0, -1.0, 2.0, 3.0, -4.0];
    let signs: Vec<bool> = values.iter().map(|&v| v >= 0.0).collect();
    assert_eq!(count_sign_changes(&signs), 3);
    assert_eq!(count_sign_changes(&[true]), 0);
    assert_eq!(count_sign_changes(&[]), 0);
    assert_eq!(count_sign_changes(&[true, true, true]), 0);
}
