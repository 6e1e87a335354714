//! Tests for tier-coverage analysis.

use rondo::query::analyze_coverage;

#[test]
fn test_analyze_coverage_full_coverage() {
    let (fully_covered, incomplete) = analyze_coverage(Some(1000), Some(5000), 2000, 4000);
    assert!(fully_covered);
    assert!(!incomplete);
}

#[test]
fn test_analyze_coverage_starts_too_early() {
    let (fully_covered, incomplete) = analyze_coverage(Some(2000), Some(5000), 1000, 4000);
    assert!(!fully_covered);
    assert!(incomplete);
}

#[test]
fn test_analyze_coverage_ends_too_late() {
    let (fully_covered, incomplete) = analyze_coverage(Some(1000), Some(3000), 2000, 5000);
    assert!(!fully_covered);
    assert!(!incomplete);
}

#[test]
fn test_analyze_coverage_no_data() {
    let (fully_covered, incomplete) = analyze_coverage(None, None, 1000, 2000);
    assert!(!fully_covered);
    assert!(incomplete);
}

#[test]
fn test_analyze_coverage_exact_match() {
    let (fully_covered, incomplete) = analyze_coverage(Some(1000), Some(2000), 1000, 2000);
    assert!(fully_covered);
    assert!(!incomplete);
}

#[test]
fn test_analyze_coverage_request_before_data() {
    let (fully_covered, incomplete) = analyze_coverage(Some(2000), Some(3000), 500, 1000);
    assert!(!fully_covered);
    assert!(incomplete);
}
