//! Package versions: epoch, version string and release string.

use vstd::prelude::*;
use crate::segment::{Relation, strings_relation, compare_strings};

verus! {

/// The version of a package or of a capability.
#[derive(Debug, PartialEq, Eq)]
pub struct Version {
    /// Epoch; a version published without one has epoch 0.
    pub epoch: u64,
    pub version: String,
    pub release: String,
}

/// What a [`Version`] holds, as mathematical values.
pub struct VersionView {
    pub epoch: nat,
    pub version: Seq<char>,
    pub release: Seq<char>,
}

impl View for Version {
    type V = VersionView;

    open spec fn view(&self) -> VersionView {
        VersionView { epoch: self.epoch as nat, version: self.version@, release: self.release@ }
    }
}

/// Order of two versions: by epoch, then by version string, then by release
/// string.
pub open spec fn version_relation(a: VersionView, b: VersionView) -> Relation {
    if a.epoch < b.epoch {
        Relation::Less
    } else if a.epoch > b.epoch {
        Relation::Greater
    } else if strings_relation(a.version, b.version) != Relation::Equal {
        strings_relation(a.version, b.version)
    } else {
        strings_relation(a.release, b.release)
    }
}

impl DeepView for Version {
    type V = VersionView;

    open spec fn deep_view(&self) -> VersionView {
        self@
    }
}

impl Clone for Version {
    fn clone(&self) -> (r: Self)
        ensures
            r@ == self@,
    {
        Version { epoch: self.epoch, version: self.version.clone(), release: self.release.clone() }
    }
}

impl Version {
    /// A version from its three parts.
    pub fn new(epoch: u64, version: &str, release: &str) -> (r: Version)
        ensures
            r@ == (VersionView { epoch: epoch as nat, version: version@, release: release@ }),
    {
        Version { epoch, version: version.to_owned(), release: release.to_owned() }
    }

    /// Compares this version with another under the version ordering.
    pub fn compare(&self, other: &Version) -> (r: Relation)
        ensures
            r == version_relation(self@, other@),
    {
        if self.epoch < other.epoch {
            return Relation::Less;
        }
        if self.epoch > other.epoch {
            return Relation::Greater;
        }
        let r = compare_strings(self.version.as_str(), other.version.as_str());
        match r {
            Relation::Equal => compare_strings(self.release.as_str(), other.release.as_str()),
            _ => r,
        }
    }

    /// Whether the two versions are written alike: same epoch, same version
    /// string and same release string.
    pub fn same(&self, other: &Version) -> (r: bool)
        ensures
            r == (self@ == other@),
    {
        self.epoch == other.epoch && self.version == other.version && self.release
            == other.release
    }
}

} // verus!
