use rust_solv::capability::{CapabilityRef, Comparator};
use rust_solv::metadata::{parse_epoch, read_entry, read_version, MetadataError};
use rust_solv::version::Version;

#[test]
fn epochs_are_decimal_numbers() {
    assert_eq!(parse_epoch("0"), Some(0));
    assert_eq!(parse_epoch("12"), Some(12));
    assert_eq!(parse_epoch("007"), Some(7));
    assert_eq!(parse_epoch("18446744073709551615"), Some(u64::MAX));
}

#[test]
fn other_text_is_no_epoch() {
    assert_eq!(parse_epoch(""), None);
    assert_eq!(parse_epoch("1a"), None);
    assert_eq!(parse_epoch("-1"), None);
    assert_eq!(parse_epoch(" 1"), None);
    assert_eq!(parse_epoch("18446744073709551616"), None);
    assert_eq!(parse_epoch("99999999999999999999999"), None);
    assert_eq!(parse_epoch("18446744073709551616x"), None);
}

#[test]
fn version_without_epoch_has_epoch_zero() {
    assert_eq!(read_version(None, Some("1.0"), Some("2")), Ok(Version::new(0, "1.0", "2")));
    assert_eq!(read_version(Some("3"), Some("1.0"), Some("2")), Ok(Version::new(3, "1.0", "2")));
}

#[test]
fn missing_fields_of_a_version_are_empty() {
    assert_eq!(read_version(Some("1"), None, None), Ok(Version::new(1, "", "")));
    assert_eq!(read_version(None, Some("2.0"), None), Ok(Version::new(0, "2.0", "")));
}

#[test]
fn bad_epoch_is_reported() {
    assert_eq!(read_version(Some("x"), Some("1.0"), Some("2")), Err(MetadataError::BadEpoch));
    assert_eq!(read_version(Some(""), Some("1.0"), Some("2")), Err(MetadataError::BadEpoch));
}

#[test]
fn entry_without_flag_has_no_constraint() {
    assert_eq!(read_entry("libX", None, None, None, None), Ok(CapabilityRef::unversioned("libX")));
    assert_eq!(
        read_entry("libX", None, Some("bad"), Some("1.0"), Some("1")),
        Ok(CapabilityRef::unversioned("libX"))
    );
}

#[test]
fn entry_with_flag_has_a_constraint() {
    assert_eq!(
        read_entry("libX", Some("GE"), Some("1"), Some("2.0"), None),
        Ok(CapabilityRef::versioned("libX", Comparator::GE, Version::new(1, "2.0", "")))
    );
    assert_eq!(
        read_entry("libX", Some("EQ"), None, Some("2.0"), Some("3.fc36")),
        Ok(CapabilityRef::versioned("libX", Comparator::EQ, Version::new(0, "2.0", "3.fc36")))
    );
}

#[test]
fn unknown_flag_is_reported() {
    assert_eq!(
        read_entry("libX", Some("NE"), Some("0"), Some("1"), Some("1")),
        Err(MetadataError::UnknownFlag)
    );
    assert_eq!(read_entry("libX", Some("NE"), Some("x"), None, None), Err(MetadataError::UnknownFlag));
}

#[test]
fn bad_epoch_of_an_entry_is_reported() {
    assert_eq!(
        read_entry("libX", Some("LT"), Some("one"), Some("1"), Some("1")),
        Err(MetadataError::BadEpoch)
    );
}
