//! Capabilities: what a package provides, requires, conflicts with or
//! obsoletes, each with an optional constraint on the version.

use vstd::prelude::*;
use crate::segment::Relation;
use crate::version::{Version, VersionView, version_relation};

verus! {

/// The relation that a constraint demands between the version on offer and
/// the version it names.
#[derive(Clone, Copy, Debug, PartialEq, Eq, Structural)]
pub enum Comparator {
    EQ,
    LT,
    LE,
    GT,
    GE,
}

impl View for Comparator {
    type V = Comparator;

    open spec fn view(&self) -> Comparator {
        *self
    }
}

impl DeepView for Comparator {
    type V = Comparator;

    open spec fn deep_view(&self) -> Comparator {
        *self
    }
}

/// The comparator that a flag of the repository metadata stands for.
pub open spec fn flag_comparator(flag: Seq<char>) -> Option<Comparator> {
    if flag == "EQ"@ {
        Some(Comparator::EQ)
    } else if flag == "LT"@ {
        Some(Comparator::LT)
    } else if flag == "LE"@ {
        Some(Comparator::LE)
    } else if flag == "GT"@ {
        Some(Comparator::GT)
    } else if flag == "GE"@ {
        Some(Comparator::GE)
    } else {
        None
    }
}

impl Comparator {
    /// Whether the comparator is content with relation `r` of the version on
    /// offer to the version named.
    pub open spec fn admits(self, r: Relation) -> bool {
        match self {
            Comparator::EQ => r == Relation::Equal,
            Comparator::LT => r == Relation::Less,
            Comparator::LE => r != Relation::Greater,
            Comparator::GT => r == Relation::Greater,
            Comparator::GE => r != Relation::Less,
        }
    }

    /// Whether the comparator is content with relation `r` of the version on
    /// offer to the version named.
    pub fn holds(self, r: Relation) -> (b: bool)
        ensures
            b == self.admits(r),
    {
        match self {
            Comparator::EQ => matches!(r, Relation::Equal),
            Comparator::LT => matches!(r, Relation::Less),
            Comparator::LE => !matches!(r, Relation::Greater),
            Comparator::GT => matches!(r, Relation::Greater),
            Comparator::GE => !matches!(r, Relation::Less),
        }
    }

    /// Reads a flag of the repository metadata: one of `EQ`, `LT`, `LE`, `GT`
    /// and `GE`. Any other text is no comparator.
    pub fn from_flag(flag: &str) -> (r: Option<Comparator>)
        ensures
            r == flag_comparator(flag@),
    {
        let flag = flag.to_owned();
        if flag == "EQ".to_owned() {
            Some(Comparator::EQ)
        } else if flag == "LT".to_owned() {
            Some(Comparator::LT)
        } else if flag == "LE".to_owned() {
            Some(Comparator::LE)
        } else if flag == "GT".to_owned() {
            Some(Comparator::GT)
        } else if flag == "GE".to_owned() {
            Some(Comparator::GE)
        } else {
            None
        }
    }
}

/// One entry of a provides, requires, conflicts or obsoletes list.
#[derive(Debug, PartialEq, Eq)]
pub struct CapabilityRef {
    pub name: String,
    /// `None` where any version will do. In a provides list the version is
    /// the one provided; an entry without one provides no version.
    pub constraint: Option<(Comparator, Version)>,
}

/// What a [`CapabilityRef`] holds, as mathematical values.
pub struct CapabilityView {
    pub name: Seq<char>,
    pub constraint: Option<(Comparator, VersionView)>,
}

impl View for CapabilityRef {
    type V = CapabilityView;

    open spec fn view(&self) -> CapabilityView {
        CapabilityView { name: self.name@, constraint: self.constraint.deep_view() }
    }
}

impl DeepView for CapabilityRef {
    type V = CapabilityView;

    open spec fn deep_view(&self) -> CapabilityView {
        self@
    }
}

/// Whether requirement `req` is content with a capability of its own name
/// that is offered at version `offered`. A requirement without a constraint
/// is content with any offer, also one without a version; one with a
/// constraint wants a version that stands to the named one as its comparator
/// says.
pub open spec fn satisfies(req: CapabilityView, offered: Option<VersionView>) -> bool {
    match req.constraint {
        None => true,
        Some((op, wanted)) => match offered {
            None => false,
            Some(version) => op.admits(version_relation(version, wanted)),
        },
    }
}

/// The version at which an entry of a provides list offers its capability.
pub open spec fn provided_version(offer: CapabilityView) -> Option<VersionView> {
    match offer.constraint {
        None => None,
        Some((_, version)) => Some(version),
    }
}

/// Whether the offer `offer` of a provides list meets the entry `req` of a
/// requires, conflicts or obsoletes list.
pub open spec fn meets(offer: CapabilityView, req: CapabilityView) -> bool {
    offer.name == req.name && satisfies(req, provided_version(offer))
}

impl Clone for CapabilityRef {
    fn clone(&self) -> (r: Self)
        ensures
            r@ == self@,
    {
        let constraint = match &self.constraint {
            None => None,
            Some((op, version)) => Some((*op, version.clone())),
        };
        CapabilityRef { name: self.name.clone(), constraint }
    }
}

impl CapabilityRef {
    /// An entry that any version satisfies.
    pub fn unversioned(name: &str) -> (r: CapabilityRef)
        ensures
            r@ == (CapabilityView { name: name@, constraint: None }),
    {
        CapabilityRef { name: name.to_owned(), constraint: None }
    }

    /// An entry with a constraint on the version.
    pub fn versioned(name: &str, op: Comparator, version: Version) -> (r: CapabilityRef)
        ensures
            r@ == (CapabilityView { name: name@, constraint: Some((op, version@)) }),
    {
        CapabilityRef { name: name.to_owned(), constraint: Some((op, version)) }
    }

    /// The version at which this entry of a provides list offers its
    /// capability.
    pub fn provided_version(&self) -> (r: Option<Version>)
        ensures
            r.deep_view() == provided_version(self@),
    {
        match &self.constraint {
            None => None,
            Some((_, version)) => Some(version.clone()),
        }
    }

    /// Whether this requirement is content with a capability of its own name
    /// offered at version `offered`.
    pub fn accepts(&self, offered: &Option<Version>) -> (r: bool)
        ensures
            r == satisfies(self@, offered.deep_view()),
    {
        match &self.constraint {
            None => true,
            Some((op, wanted)) => match offered {
                None => false,
                Some(version) => op.holds(version.compare(wanted)),
            },
        }
    }

    /// Whether `offer`, an entry of a provides list, meets this entry.
    pub fn met_by(&self, offer: &CapabilityRef) -> (r: bool)
        ensures
            r == meets(offer@, self@),
    {
        if offer.name == self.name {
            match &offer.constraint {
                None => self.accepts(&None),
                Some((_, version)) => match &self.constraint {
                    None => true,
                    Some((op, wanted)) => op.holds(version.compare(wanted)),
                },
            }
        } else {
            false
        }
    }
}

/// A requirement without a constraint is content with every offer of its
/// name, whatever the version, also with an offer that has no version.
pub proof fn law_unversioned_accepts_all(name: Seq<char>, offered: Option<VersionView>)
    ensures
        satisfies(CapabilityView { name, constraint: None }, offered),
{
}

} // verus!
