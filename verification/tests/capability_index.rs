use rust_solv::capability::{CapabilityRef, Comparator};
use rust_solv::catalog::{Catalog, Package};
use rust_solv::index::{CapabilityIndex, Provider};
use rust_solv::version::Version;

fn v(version: &str) -> Version {
    Version::new(0, version, "1")
}

fn sample() -> Catalog {
    let mut catalog = Catalog::new("OS");
    let mut a = Package::new("a", "rpm", v("1"));
    a.provides.push(CapabilityRef::versioned("lib", Comparator::EQ, v("1.0")));
    a.provides.push(CapabilityRef::unversioned("tool"));
    let mut b = Package::new("b", "rpm", v("2"));
    b.provides.push(CapabilityRef::versioned("lib", Comparator::EQ, v("2.0")));
    b.provides.push(CapabilityRef::versioned("lib", Comparator::EQ, v("1.0")));
    b.provides.push(CapabilityRef::versioned("b", Comparator::EQ, v("2")));
    let a2 = Package::new("a", "rpm", v("3"));
    catalog.packages.push(a);
    catalog.packages.push(b);
    catalog.packages.push(a2);
    catalog
}

#[test]
fn bucket_follows_catalog_order() {
    let catalog = sample();
    let index = CapabilityIndex::build(&catalog);
    assert_eq!(
        index.lookup("lib"),
        &vec![
            Provider { package: 0, version: Some(v("1.0")) },
            Provider { package: 1, version: Some(v("2.0")) },
            Provider { package: 1, version: Some(v("1.0")) },
        ]
    );
}

#[test]
fn unknown_capability_has_no_providers() {
    let catalog = sample();
    let index = CapabilityIndex::build(&catalog);
    assert!(index.lookup("nothing").is_empty());
    assert!(index.lookup("").is_empty());
}

#[test]
fn offers_without_a_version_are_kept() {
    let catalog = sample();
    let index = CapabilityIndex::build(&catalog);
    assert_eq!(index.lookup("tool"), &vec![Provider { package: 0, version: None }]);
}

#[test]
fn every_package_is_listed_under_its_own_name() {
    let catalog = sample();
    let index = CapabilityIndex::build(&catalog);
    assert_eq!(
        index.lookup("a"),
        &vec![
            Provider { package: 0, version: Some(v("1")) },
            Provider { package: 2, version: Some(v("3")) },
        ]
    );
}

#[test]
fn nothing_is_merged() {
    let catalog = sample();
    let index = CapabilityIndex::build(&catalog);
    assert_eq!(
        index.lookup("b"),
        &vec![
            Provider { package: 1, version: Some(v("2")) },
            Provider { package: 1, version: Some(v("2")) },
        ]
    );
}

#[test]
fn index_of_empty_catalog_is_empty() {
    let catalog = Catalog::new("none");
    let index = CapabilityIndex::build(&catalog);
    assert!(index.lookup("a").is_empty());
}
