use rust_solv::segment::{compare_strings, Relation};
use rust_solv::version::Version;

fn v(epoch: u64, version: &str, release: &str) -> Version {
    Version::new(epoch, version, release)
}

#[test]
fn numbers_compare_by_value_not_by_text() {
    assert_eq!(v(0, "1.2", "1").compare(&v(0, "1.10", "1")), Relation::Less);
    assert_eq!(v(0, "1.10", "1").compare(&v(0, "1.2", "1")), Relation::Greater);
}

#[test]
fn longer_string_with_more_numbers_is_greater() {
    assert_eq!(compare_strings("1.0", "1.0.1"), Relation::Less);
    assert_eq!(compare_strings("1.0.1", "1.0"), Relation::Greater);
}

#[test]
fn trailing_letters_make_a_string_smaller() {
    assert_eq!(compare_strings("1.0a", "1.0"), Relation::Less);
    assert_eq!(compare_strings("1.0", "1.0a"), Relation::Greater);
    assert_eq!(compare_strings("1.0rc", "1.0"), Relation::Less);
}

#[test]
fn trailing_text_with_other_characters_makes_a_string_greater() {
    assert_eq!(compare_strings("1", "1."), Relation::Less);
    assert_eq!(compare_strings("1.0", "1.0-a"), Relation::Less);
    assert_eq!(compare_strings("1.0_", "1.0"), Relation::Greater);
}

#[test]
fn leading_zeros_are_ignored() {
    assert_eq!(compare_strings("1.01", "1.1"), Relation::Equal);
    assert_eq!(compare_strings("001", "1"), Relation::Equal);
    assert_eq!(compare_strings("0", "000"), Relation::Equal);
    assert_eq!(compare_strings("010", "9"), Relation::Greater);
}

#[test]
fn numbers_of_any_size_are_compared() {
    assert_eq!(
        compare_strings("99999999999999999999999999", "100000000000000000000000000"),
        Relation::Less
    );
    assert_eq!(
        compare_strings("340282366920938463463374607431768211457", "340282366920938463463374607431768211456"),
        Relation::Greater
    );
}

#[test]
fn text_compares_lexicographically() {
    assert_eq!(compare_strings("1.a", "1.b"), Relation::Less);
    assert_eq!(compare_strings("1.ab", "1.a"), Relation::Greater);
    assert_eq!(compare_strings("1a", "1."), Relation::Greater);
    assert_eq!(compare_strings("abc", "abc"), Relation::Equal);
}

#[test]
fn a_number_ranks_above_text() {
    assert_eq!(compare_strings("1", "a"), Relation::Greater);
    assert_eq!(compare_strings("a1", "1a"), Relation::Less);
}

#[test]
fn empty_strings() {
    assert_eq!(compare_strings("", ""), Relation::Equal);
    assert_eq!(compare_strings("", "1"), Relation::Less);
    assert_eq!(compare_strings("", "a"), Relation::Greater);
    assert_eq!(compare_strings("", "."), Relation::Less);
}

#[test]
fn epoch_decides_first() {
    assert_eq!(v(1, "0.1", "1").compare(&v(0, "9.9", "9")), Relation::Greater);
    assert_eq!(v(0, "9.9", "9").compare(&v(1, "0.1", "1")), Relation::Less);
}

#[test]
fn release_decides_last() {
    assert_eq!(v(0, "1.0", "2").compare(&v(0, "1.0", "10")), Relation::Less);
    assert_eq!(v(0, "1.0", "2.fc36").compare(&v(0, "1.0", "2.fc36")), Relation::Equal);
    assert_eq!(v(0, "1.1", "1").compare(&v(0, "1.0", "9")), Relation::Greater);
}

#[test]
fn comparison_is_total_on_samples() {
    let samples: Vec<Version> = vec![
        v(0, "1.0", "1"),
        v(0, "1.0", "2"),
        v(0, "1.10", "1"),
        v(0, "1.2", "1"),
        v(1, "0.5", "1"),
        v(0, "1.0a", "1"),
        v(0, "1.0.1", "1"),
        v(0, "", ""),
        v(0, "01.0", "1"),
    ];
    for a in &samples {
        assert_eq!(a.compare(a), Relation::Equal);
        for b in &samples {
            let forward = a.compare(b);
            let backward = b.compare(a);
            let expected = match forward {
                Relation::Less => Relation::Greater,
                Relation::Equal => Relation::Equal,
                Relation::Greater => Relation::Less,
            };
            assert_eq!(backward, expected);
        }
    }
}

#[test]
fn less_is_transitive_on_samples_without_bare_letters() {
    let samples: Vec<Version> = vec![
        v(0, "1.0", "1"),
        v(0, "1.0", "2"),
        v(0, "1.10", "1"),
        v(0, "1.2", "1"),
        v(1, "0.5", "1"),
        v(0, "1.0.1", "1"),
        v(0, "1.0-rc1", "1"),
        v(0, "", ""),
        v(2, "3", "4.el8_5"),
    ];
    for a in &samples {
        for b in &samples {
            for c in &samples {
                if a.compare(b) == Relation::Less && b.compare(c) == Relation::Less {
                    assert_eq!(a.compare(c), Relation::Less);
                }
            }
        }
    }
}

#[test]
fn equal_versions_are_interchangeable() {
    let a = v(0, "1.01", "1");
    let b = v(0, "1.1", "01");
    assert_eq!(a.compare(&b), Relation::Equal);
    let others: Vec<Version> = vec![v(0, "1.0", "1"), v(0, "1.2", "1"), v(0, "1.1", "1"), v(1, "0", "0")];
    for c in &others {
        assert_eq!(a.compare(c), b.compare(c));
        assert_eq!(c.compare(&a), c.compare(&b));
    }
}

#[test]
fn strings_that_wrap_round_the_end_are_ranked_in_a_circle() {
    assert_eq!(compare_strings("1a", "1"), Relation::Less);
    assert_eq!(compare_strings("1", "1."), Relation::Less);
    assert_eq!(compare_strings("1.", "1a"), Relation::Less);
}

#[test]
fn same_tells_versions_written_alike() {
    assert!(v(0, "1.0", "1").same(&v(0, "1.0", "1")));
    assert!(!v(0, "1.0", "1").same(&v(0, "1.00", "1")));
    assert!(!v(0, "1.0", "1").same(&v(1, "1.0", "1")));
    assert!(!v(0, "1.0", "1").same(&v(0, "1.0", "2")));
}

#[test]
fn clone_keeps_the_version() {
    let a = v(3, "1.0", "2");
    assert_eq!(a.clone(), a);
}
