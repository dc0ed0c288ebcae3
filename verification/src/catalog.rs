//! Packages and the catalog of a repository.

use vstd::prelude::*;
use crate::capability::{CapabilityRef, CapabilityView, Comparator};
use crate::version::{Version, VersionView};

verus! {

/// A package of a repository with the capabilities it declares.
#[derive(Debug, PartialEq, Eq)]
pub struct Package {
    pub name: String,
    /// The kind of package, such as `rpm`.
    pub kind: String,
    pub version: Version,
    pub provides: Vec<CapabilityRef>,
    pub requires: Vec<CapabilityRef>,
    pub conflicts: Vec<CapabilityRef>,
    pub obsoletes: Vec<CapabilityRef>,
}

/// What a [`Package`] holds, as mathematical values.
pub struct PackageView {
    pub name: Seq<char>,
    pub kind: Seq<char>,
    pub version: VersionView,
    pub provides: Seq<CapabilityView>,
    pub requires: Seq<CapabilityView>,
    pub conflicts: Seq<CapabilityView>,
    pub obsoletes: Seq<CapabilityView>,
}

impl View for Package {
    type V = PackageView;

    open spec fn view(&self) -> PackageView {
        PackageView {
            name: self.name@,
            kind: self.kind@,
            version: self.version@,
            provides: self.provides.deep_view(),
            requires: self.requires.deep_view(),
            conflicts: self.conflicts.deep_view(),
            obsoletes: self.obsoletes.deep_view(),
        }
    }
}

impl DeepView for Package {
    type V = PackageView;

    open spec fn deep_view(&self) -> PackageView {
        self@
    }
}

impl PackageView {
    /// The capability that every package provides without declaring it: its
    /// own name at exactly its own version.
    pub open spec fn self_provide(self) -> CapabilityView {
        CapabilityView { name: self.name, constraint: Some((Comparator::EQ, self.version)) }
    }

    /// All that the package provides: what it declares, then itself.
    pub open spec fn effective_provides(self) -> Seq<CapabilityView> {
        self.provides.push(self.self_provide())
    }

    /// What the package rules out: its conflicts, then its obsoletes.
    pub open spec fn exclusions(self) -> Seq<CapabilityView> {
        self.conflicts + self.obsoletes
    }

    /// Whether two packages have the same name and are written with the same
    /// version.
    pub open spec fn same_identity(self, other: PackageView) -> bool {
        self.name == other.name && self.version == other.version
    }
}

impl Package {
    /// A package that declares no capabilities.
    pub fn new(name: &str, kind: &str, version: Version) -> (r: Package)
        ensures
            r@ == (PackageView {
                name: name@,
                kind: kind@,
                version: version@,
                provides: Seq::empty(),
                requires: Seq::empty(),
                conflicts: Seq::empty(),
                obsoletes: Seq::empty(),
            }),
    {
        let r = Package {
            name: name.to_owned(),
            kind: kind.to_owned(),
            version,
            provides: Vec::new(),
            requires: Vec::new(),
            conflicts: Vec::new(),
            obsoletes: Vec::new(),
        };
        assert(r@.provides =~= Seq::empty());
        assert(r@.requires =~= Seq::empty());
        assert(r@.conflicts =~= Seq::empty());
        assert(r@.obsoletes =~= Seq::empty());
        r
    }

    /// The capability that the package provides without declaring it.
    pub fn self_provide(&self) -> (r: CapabilityRef)
        ensures
            r@ == self@.self_provide(),
    {
        CapabilityRef {
            name: self.name.clone(),
            constraint: Some((Comparator::EQ, self.version.clone())),
        }
    }

    /// All that the package provides: what it declares, then itself.
    pub fn effective_provides(&self) -> (r: Vec<CapabilityRef>)
        ensures
            r.deep_view() == self@.effective_provides(),
    {
        let mut r: Vec<CapabilityRef> = Vec::new();
        let mut k: usize = 0;
        while k < self.provides.len()
            invariant
                k <= self.provides.len(),
                r@.len() == k,
                forall|m: int| 0 <= m < k ==> (#[trigger] r@[m])@ == self.provides@[m]@,
            decreases self.provides.len() - k,
        {
            r.push(self.provides[k].clone());
            k += 1;
        }
        r.push(self.self_provide());
        assert(r.deep_view() =~= self@.effective_provides());
        r
    }

    /// Whether the two packages have the same name and are written with the
    /// same version.
    pub fn same_identity(&self, other: &Package) -> (r: bool)
        ensures
            r == self@.same_identity(other@),
    {
        self.name == other.name && self.version.same(&other.version)
    }
}

/// The packages of one repository, in the order of its metadata. Packages of
/// one name and several versions may stand side by side.
#[derive(Debug, PartialEq, Eq)]
pub struct Catalog {
    pub repo_name: String,
    pub packages: Vec<Package>,
}

/// What a [`Catalog`] holds, as mathematical values.
pub struct CatalogView {
    pub repo_name: Seq<char>,
    pub packages: Seq<PackageView>,
}

impl View for Catalog {
    type V = CatalogView;

    open spec fn view(&self) -> CatalogView {
        CatalogView { repo_name: self.repo_name@, packages: self.packages.deep_view() }
    }
}

impl Catalog {
    /// A catalog without packages.
    pub fn new(repo_name: &str) -> (r: Catalog)
        ensures
            r@ == (CatalogView { repo_name: repo_name@, packages: Seq::empty() }),
    {
        let r = Catalog { repo_name: repo_name.to_owned(), packages: Vec::new() };
        assert(r@.packages =~= Seq::empty());
        r
    }
}

} // verus!
