use rust_solv::capability::{CapabilityRef, Comparator};
use rust_solv::catalog::{Catalog, Package};
use rust_solv::segment::Relation;
use rust_solv::version::Version;

fn v(version: &str) -> Version {
    Version::new(0, version, "1")
}

#[test]
fn flags_map_to_comparators() {
    assert_eq!(Comparator::from_flag("EQ"), Some(Comparator::EQ));
    assert_eq!(Comparator::from_flag("LT"), Some(Comparator::LT));
    assert_eq!(Comparator::from_flag("LE"), Some(Comparator::LE));
    assert_eq!(Comparator::from_flag("GT"), Some(Comparator::GT));
    assert_eq!(Comparator::from_flag("GE"), Some(Comparator::GE));
    assert_eq!(Comparator::from_flag("eq"), None);
    assert_eq!(Comparator::from_flag(""), None);
    assert_eq!(Comparator::from_flag("NE"), None);
}

#[test]
fn comparators_hold_on_their_relations() {
    assert!(Comparator::EQ.holds(Relation::Equal));
    assert!(!Comparator::EQ.holds(Relation::Less));
    assert!(!Comparator::EQ.holds(Relation::Greater));
    assert!(Comparator::LT.holds(Relation::Less));
    assert!(!Comparator::LT.holds(Relation::Equal));
    assert!(Comparator::LE.holds(Relation::Less));
    assert!(Comparator::LE.holds(Relation::Equal));
    assert!(!Comparator::LE.holds(Relation::Greater));
    assert!(Comparator::GT.holds(Relation::Greater));
    assert!(!Comparator::GT.holds(Relation::Equal));
    assert!(Comparator::GE.holds(Relation::Greater));
    assert!(Comparator::GE.holds(Relation::Equal));
    assert!(!Comparator::GE.holds(Relation::Less));
}

#[test]
fn unversioned_requirement_accepts_any_offer() {
    let req = CapabilityRef::unversioned("libX");
    assert!(req.accepts(&None));
    assert!(req.accepts(&Some(v("0.1"))));
    assert!(req.accepts(&Some(Version::new(7, "99", "zz"))));
}

#[test]
fn versioned_requirement_wants_a_version() {
    let req = CapabilityRef::versioned("libX", Comparator::GE, v("1.0"));
    assert!(!req.accepts(&None));
    assert!(req.accepts(&Some(v("1.0"))));
    assert!(req.accepts(&Some(v("1.5"))));
    assert!(!req.accepts(&Some(v("0.9"))));
}

#[test]
fn each_comparator_constrains_the_offer() {
    let low = Some(v("1.0"));
    let mid = Some(v("2.0"));
    let high = Some(v("3.0"));
    let eq = CapabilityRef::versioned("c", Comparator::EQ, v("2.0"));
    assert!(!eq.accepts(&low) && eq.accepts(&mid) && !eq.accepts(&high));
    let lt = CapabilityRef::versioned("c", Comparator::LT, v("2.0"));
    assert!(lt.accepts(&low) && !lt.accepts(&mid) && !lt.accepts(&high));
    let le = CapabilityRef::versioned("c", Comparator::LE, v("2.0"));
    assert!(le.accepts(&low) && le.accepts(&mid) && !le.accepts(&high));
    let gt = CapabilityRef::versioned("c", Comparator::GT, v("2.0"));
    assert!(!gt.accepts(&low) && !gt.accepts(&mid) && gt.accepts(&high));
    let ge = CapabilityRef::versioned("c", Comparator::GE, v("2.0"));
    assert!(!ge.accepts(&low) && ge.accepts(&mid) && ge.accepts(&high));
}

#[test]
fn an_offer_meets_an_entry_of_its_name_only() {
    let offer = CapabilityRef::versioned("libX", Comparator::EQ, v("1.0"));
    assert!(CapabilityRef::unversioned("libX").met_by(&offer));
    assert!(!CapabilityRef::unversioned("libY").met_by(&offer));
    assert!(CapabilityRef::versioned("libX", Comparator::LE, v("1.0")).met_by(&offer));
    assert!(!CapabilityRef::versioned("libX", Comparator::GT, v("1.0")).met_by(&offer));
    let bare = CapabilityRef::unversioned("libX");
    assert!(CapabilityRef::unversioned("libX").met_by(&bare));
    assert!(!CapabilityRef::versioned("libX", Comparator::GE, v("0")).met_by(&bare));
}

#[test]
fn provided_version_is_the_version_of_the_constraint() {
    assert_eq!(CapabilityRef::unversioned("a").provided_version(), None);
    assert_eq!(
        CapabilityRef::versioned("a", Comparator::GE, v("1.0")).provided_version(),
        Some(v("1.0"))
    );
}

#[test]
fn self_provide_is_name_at_own_version() {
    let p = Package::new("foo", "rpm", Version::new(2, "1.0", "3"));
    assert_eq!(
        p.self_provide(),
        CapabilityRef::versioned("foo", Comparator::EQ, Version::new(2, "1.0", "3"))
    );
}

#[test]
fn effective_provides_are_declared_then_self() {
    let mut p = Package::new("foo", "rpm", v("1.0"));
    assert_eq!(p.effective_provides(), vec![CapabilityRef::versioned("foo", Comparator::EQ, v("1.0"))]);
    p.provides.push(CapabilityRef::unversioned("webserver"));
    p.provides.push(CapabilityRef::versioned("libfoo", Comparator::EQ, v("4")));
    assert_eq!(
        p.effective_provides(),
        vec![
            CapabilityRef::unversioned("webserver"),
            CapabilityRef::versioned("libfoo", Comparator::EQ, v("4")),
            CapabilityRef::versioned("foo", Comparator::EQ, v("1.0")),
        ]
    );
}

#[test]
fn package_meets_a_requirement_for_itself_with_empty_provides() {
    let p = Package::new("foo", "rpm", v("1.0"));
    let req = CapabilityRef::versioned("foo", Comparator::EQ, v("1.0"));
    assert!(p.provides.is_empty());
    assert!(req.met_by(&p.self_provide()));
}

#[test]
fn identity_is_name_and_version() {
    let a = Package::new("foo", "rpm", v("1.0"));
    let mut b = Package::new("foo", "rpm", v("1.0"));
    b.requires.push(CapabilityRef::unversioned("x"));
    assert!(a.same_identity(&b));
    assert!(!a.same_identity(&Package::new("foo", "rpm", v("1.1"))));
    assert!(!a.same_identity(&Package::new("bar", "rpm", v("1.0"))));
}

#[test]
fn new_catalog_is_empty() {
    let c = Catalog::new("OS");
    assert_eq!(c.repo_name, "OS");
    assert!(c.packages.is_empty());
}

#[test]
fn new_package_declares_nothing() {
    let p = Package::new("foo", "rpm", v("1.0"));
    assert_eq!(p.name, "foo");
    assert_eq!(p.kind, "rpm");
    assert_eq!(p.version, v("1.0"));
    assert!(p.provides.is_empty() && p.requires.is_empty());
    assert!(p.conflicts.is_empty() && p.obsoletes.is_empty());
}
