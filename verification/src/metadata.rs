//! Reading the records of the repository metadata into versions and
//! capabilities.

use vstd::prelude::*;
use crate::capability::{CapabilityRef, CapabilityView, Comparator, flag_comparator};
use crate::segment::{all_digits, chars_of, digit, digit_value, digits_value};
use crate::version::{Version, VersionView};

verus! {

/// Why a record of the metadata could not be read.
#[derive(Clone, Copy, Debug, PartialEq, Eq, Structural)]
pub enum MetadataError {
    /// An epoch that is not a decimal number, or one too large.
    BadEpoch,
    /// A flag other than `EQ`, `LT`, `LE`, `GT` and `GE`.
    UnknownFlag,
}

/// The epoch that `text` denotes: `text` is a decimal number that fits in 64
/// bits.
pub open spec fn epoch_of(text: Seq<char>) -> Option<nat> {
    if text.len() > 0 && all_digits(text) && digits_value(text) <= u64::MAX {
        Some(digits_value(text))
    } else {
        None
    }
}

/// The epoch of a record: 0 where the record has none.
pub open spec fn epoch_or_zero(epoch: Option<Seq<char>>) -> Option<nat> {
    match epoch {
        None => Some(0nat),
        Some(text) => epoch_of(text),
    }
}

/// The text of a field of a record; empty where the record lacks the field.
pub open spec fn text_or_empty(field: Option<Seq<char>>) -> Seq<char> {
    match field {
        None => Seq::empty(),
        Some(text) => text,
    }
}

/// What an optional piece of text holds.
pub open spec fn text_view(field: Option<&str>) -> Option<Seq<char>> {
    match field {
        None => None,
        Some(text) => Some(text@),
    }
}

/// The version that the three fields of a record denote.
pub open spec fn version_of(
    epoch: Option<Seq<char>>,
    version: Option<Seq<char>>,
    release: Option<Seq<char>>,
) -> Result<VersionView, MetadataError> {
    match epoch_or_zero(epoch) {
        None => Err(MetadataError::BadEpoch),
        Some(number) => Ok(
            VersionView {
                epoch: number,
                version: text_or_empty(version),
                release: text_or_empty(release),
            },
        ),
    }
}

/// The capability that an entry of a provides, requires, conflicts or
/// obsoletes block denotes. An entry without a flag has no constraint,
/// whatever else it holds.
pub open spec fn entry_of(
    name: Seq<char>,
    flags: Option<Seq<char>>,
    epoch: Option<Seq<char>>,
    version: Option<Seq<char>>,
    release: Option<Seq<char>>,
) -> Result<CapabilityView, MetadataError> {
    match flags {
        None => Ok(CapabilityView { name, constraint: None }),
        Some(flag) => match flag_comparator(flag) {
            None => Err(MetadataError::UnknownFlag),
            Some(op) => match version_of(epoch, version, release) {
                Err(e) => Err(e),
                Ok(v) => Ok(CapabilityView { name, constraint: Some((op, v)) }),
            },
        },
    }
}

proof fn lemma_prefix_value(s: Seq<char>, k: int)
    requires
        0 <= k <= s.len(),
    ensures
        digits_value(s.take(k)) <= digits_value(s),
    decreases s.len() - k,
{
    if k < s.len() {
        lemma_prefix_value(s, k + 1);
        assert(s.take(k + 1).drop_last() =~= s.take(k));
    } else {
        assert(s.take(k) =~= s);
    }
}

/// Reads an epoch: a decimal number that fits in 64 bits.
pub fn parse_epoch(text: &str) -> (r: Option<u64>)
    ensures
        match r {
            Some(number) => epoch_of(text@) == Some(number as nat),
            None => epoch_of(text@) is None,
        },
{
    let chars = chars_of(text);
    if chars.len() == 0 {
        return None;
    }
    let mut value: u64 = 0;
    let mut k: usize = 0;
    while k < chars.len()
        invariant
            k <= chars.len(),
            chars@ == text@,
            all_digits(chars@.take(k as int)),
            value == digits_value(chars@.take(k as int)),
        decreases chars.len() - k,
    {
        let c = chars[k];
        if !digit(c) {
            return None;
        }
        let d: u64 = (c as u32 - '0' as u32) as u64;
        proof {
            assert(chars@.take(k + 1).drop_last() =~= chars@.take(k as int));
            assert(chars@.take(k + 1).last() == c);
            assert(d == digit_value(c));
            lemma_prefix_value(chars@, k + 1);
        }
        if value > (u64::MAX - d) / 10 {
            return None;
        }
        value = value * 10 + d;
        k += 1;
    }
    proof {
        assert(chars@.take(k as int) =~= chars@);
    }
    Some(value)
}

fn owned_or_empty(field: Option<&str>) -> (r: String)
    ensures
        r@ == text_or_empty(text_view(field)),
{
    match field {
        None => String::new(),
        Some(text) => text.to_owned(),
    }
}

/// Reads a version from the fields of a record. A record without an epoch
/// has epoch 0, and a field that is missing is empty.
pub fn read_version(epoch: Option<&str>, version: Option<&str>, release: Option<&str>) -> (r:
    Result<Version, MetadataError>)
    ensures
        match r {
            Ok(v) => version_of(text_view(epoch), text_view(version), text_view(release)) == Ok::<
                VersionView,
                MetadataError,
            >(v@),
            Err(e) => version_of(text_view(epoch), text_view(version), text_view(release)) == Err::<
                VersionView,
                MetadataError,
            >(e),
        },
{
    let number = match epoch {
        None => 0,
        Some(text) => match parse_epoch(text) {
            None => {
                return Err(MetadataError::BadEpoch);
            },
            Some(number) => number,
        },
    };
    Ok(Version { epoch: number, version: owned_or_empty(version), release: owned_or_empty(release) })
}

/// Reads one entry of a provides, requires, conflicts or obsoletes block.
pub fn read_entry(
    name: &str,
    flags: Option<&str>,
    epoch: Option<&str>,
    version: Option<&str>,
    release: Option<&str>,
) -> (r: Result<CapabilityRef, MetadataError>)
    ensures
        match r {
            Ok(c) => entry_of(
                name@,
                text_view(flags),
                text_view(epoch),
                text_view(version),
                text_view(release),
            ) == Ok::<CapabilityView, MetadataError>(c@),
            Err(e) => entry_of(
                name@,
                text_view(flags),
                text_view(epoch),
                text_view(version),
                text_view(release),
            ) == Err::<CapabilityView, MetadataError>(e),
        },
{
    match flags {
        None => Ok(CapabilityRef { name: name.to_owned(), constraint: None }),
        Some(flag) => match Comparator::from_flag(flag) {
            None => Err(MetadataError::UnknownFlag),
            Some(op) => match read_version(epoch, version, release) {
                Err(e) => Err(e),
                Ok(v) => Ok(CapabilityRef { name: name.to_owned(), constraint: Some((op, v)) }),
            },
        },
    }
}

} // verus!
