use lpm::version::{version_cmp, version_satisfies, VersionOp};
use std::cmp::Ordering;

#[test]
fn upstream_numbers_compare_numerically() {
    assert_eq!(version_cmp("2.10", "2.9"), Ordering::Greater);
    assert_eq!(version_cmp("1.0", "1.1"), Ordering::Less);
    assert_eq!(version_cmp("1.0", "1.0"), Ordering::Equal);
}

#[test]
fn epoch_outweighs_upstream() {
    assert_eq!(version_cmp("1:0.9", "2.0"), Ordering::Greater);
    assert_eq!(version_cmp("0:2.0", "2.0"), Ordering::Equal);
}

#[test]
fn tilde_sorts_before_release() {
    assert_eq!(version_cmp("1.0~rc1", "1.0"), Ordering::Less);
    assert_eq!(version_cmp("1.0~rc1", "1.0~rc2"), Ordering::Less);
}

#[test]
fn revision_breaks_ties() {
    assert_eq!(version_cmp("1.0-1", "1.0-2"), Ordering::Less);
    assert_eq!(version_cmp("1.0-10", "1.0-9"), Ordering::Greater);
}

#[test]
fn letters_sort_before_punctuation() {
    assert_eq!(version_cmp("1.0a", "1.0+"), Ordering::Less);
}

#[test]
fn order_is_reflexive_antisymmetric_transitive_on_samples() {
    let vs = ["1.0", "1:0.1", "1.0~b", "1.0-1", "2.0+dfsg", "0.9.9"];
    for a in vs.iter() {
        assert_eq!(version_cmp(a, a), Ordering::Equal);
        for b in vs.iter() {
            assert_eq!(version_cmp(a, b), version_cmp(b, a).reverse());
            for c in vs.iter() {
                if version_cmp(a, b) != Ordering::Greater && version_cmp(b, c) != Ordering::Greater {
                    assert_ne!(version_cmp(a, c), Ordering::Greater);
                }
            }
        }
    }
}

#[test]
fn satisfies_each_operator() {
    assert!(version_satisfies("2.34", &VersionOp::Ge, "2.34"));
    assert!(!version_satisfies("2.33", &VersionOp::Ge, "2.34"));
    assert!(version_satisfies("1.0", &VersionOp::Lt, "2.0"));
    assert!(version_satisfies("1.0", &VersionOp::Le, "1.0"));
    assert!(version_satisfies("3.0", &VersionOp::Gt, "2.0"));
    assert!(version_satisfies("1:1.0", &VersionOp::Eq, "1:1.0"));
    assert!(!version_satisfies("1.0", &VersionOp::Eq, "1.0-1"));
}
