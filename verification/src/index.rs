//! The capability index: for each capability name, the packages that
//! provide it.

use vstd::prelude::*;
use vstd::hash_map::StringHashMap;
use crate::capability::provided_version;
use crate::catalog::{Catalog, CatalogView, PackageView};
use crate::version::{Version, VersionView};

verus! {

/// One way to get a capability: the package that provides it, by its
/// position in the catalog, and the version at which it does.
#[derive(Debug, PartialEq, Eq)]
pub struct Provider {
    pub package: usize,
    pub version: Option<Version>,
}

/// What a [`Provider`] holds, as mathematical values.
pub struct ProviderView {
    pub package: int,
    pub version: Option<VersionView>,
}

impl View for Provider {
    type V = ProviderView;

    open spec fn view(&self) -> ProviderView {
        ProviderView { package: self.package as int, version: self.version.deep_view() }
    }
}

impl DeepView for Provider {
    type V = ProviderView;

    open spec fn deep_view(&self) -> ProviderView {
        self@
    }
}

/// The offers of capability `name` among the first `k` entries of the
/// effective provides list of package `p`, which stands at `position`.
pub open spec fn package_offers(p: PackageView, position: int, name: Seq<char>, k: int) -> Seq<
    ProviderView,
>
    decreases k,
{
    if k <= 0 {
        Seq::empty()
    } else {
        let rest = package_offers(p, position, name, k - 1);
        let entry = p.effective_provides()[k - 1];
        if entry.name == name {
            rest.push(ProviderView { package: position, version: provided_version(entry) })
        } else {
            rest
        }
    }
}

/// The offers of capability `name` by the first `n` packages, in the order of
/// the packages and, within a package, of its effective provides list.
pub open spec fn providers_among(packages: Seq<PackageView>, name: Seq<char>, n: int) -> Seq<
    ProviderView,
>
    decreases n,
{
    if n <= 0 {
        Seq::empty()
    } else {
        providers_among(packages, name, n - 1) + package_offers(
            packages[n - 1],
            n - 1,
            name,
            packages[n - 1].effective_provides().len() as int,
        )
    }
}

/// All offers of capability `name` in the catalog, in catalog order. Nothing
/// is left out and nothing merged: a package that offers the capability twice
/// stands twice.
pub open spec fn providers(catalog: CatalogView, name: Seq<char>) -> Seq<ProviderView> {
    providers_among(catalog.packages, name, catalog.packages.len() as int)
}

/// Every slot lies within the buckets, and no two names share one.
spec fn slots_fit(slots: Map<Seq<char>, usize>, n: nat) -> bool {
    &&& forall|name: Seq<char>| slots.contains_key(name) ==> #[trigger] slots[name] < n
    &&& forall|a: Seq<char>, b: Seq<char>|
        slots.contains_key(a) && slots.contains_key(b) && #[trigger] slots[a] == #[trigger] slots[b]
            ==> a == b
}

spec fn bucket_of(slots: Map<Seq<char>, usize>, buckets: Seq<Vec<Provider>>, name: Seq<char>) -> Seq<
    ProviderView,
> {
    if slots.contains_key(name) {
        buckets[slots[name] as int].deep_view()
    } else {
        Seq::empty()
    }
}

/// Appends `offer` to the bucket of `name`, which is made if there is none.
fn add_offer(
    slots: &mut StringHashMap<usize>,
    buckets: &mut Vec<Vec<Provider>>,
    name: &String,
    offer: Provider,
)
    requires
        slots_fit(old(slots)@, old(buckets)@.len()),
    ensures
        slots_fit(final(slots)@, final(buckets)@.len()),
        bucket_of(final(slots)@, final(buckets)@, name@) == bucket_of(
            old(slots)@,
            old(buckets)@,
            name@,
        ).push(offer@),
        forall|other: Seq<char>|
            other != name@ ==> #[trigger] bucket_of(final(slots)@, final(buckets)@, other)
                == bucket_of(old(slots)@, old(buckets)@, other),
{
    let ghost slots0 = slots@;
    let ghost buckets0 = buckets@;
    let found: Option<usize> = match slots.get(name.as_str()) {
        Some(slot) => Some(*slot),
        None => None,
    };
    match found {
        Some(slot) => {
            buckets[slot].push(offer);
            proof {
                assert(buckets@[slot as int].deep_view() =~= buckets0[slot as int].deep_view().push(
                    offer@,
                ));
                assert forall|other: Seq<char>| other != name@ implies #[trigger] bucket_of(
                    slots@,
                    buckets@,
                    other,
                ) == bucket_of(slots0, buckets0, other) by {
                    if slots0.contains_key(other) {
                        assert(slots0[other] != slots0[name@]);
                    }
                }
            }
        },
        None => {
            let slot = buckets.len();
            let mut fresh: Vec<Provider> = Vec::new();
            fresh.push(offer);
            buckets.push(fresh);
            slots.insert(name.clone(), slot);
            proof {
                assert(buckets@[slot as int].deep_view() =~= Seq::<ProviderView>::empty().push(
                    offer@,
                ));
                assert forall|other: Seq<char>| other != name@ implies #[trigger] bucket_of(
                    slots@,
                    buckets@,
                    other,
                ) == bucket_of(slots0, buckets0, other) by {
                    if slots0.contains_key(other) {
                        assert(slots0[other] < slot);
                    }
                }
                assert forall|a: Seq<char>| slots@.contains_key(a) implies #[trigger] slots@[a]
                    < buckets@.len() by {
                    if a != name@ {
                        assert(slots0[a] < slot);
                    }
                }
                assert forall|a: Seq<char>, b: Seq<char>|
                    slots@.contains_key(a) && slots@.contains_key(b) && #[trigger] slots@[a]
                        == #[trigger] slots@[b] implies a == b by {
                    if a != name@ {
                        assert(slots0[a] < slot);
                    }
                    if b != name@ {
                        assert(slots0[b] < slot);
                    }
                }
            }
        },
    }
}

/// For each capability name the offers of it in one catalog, in catalog
/// order. An index is built once for a catalog and never changed.
pub struct CapabilityIndex {
    slots: StringHashMap<usize>,
    buckets: Vec<Vec<Provider>>,
    nothing: Vec<Provider>,
}

impl CapabilityIndex {
    #[verifier::type_invariant]
    spec fn well_formed(&self) -> bool {
        slots_fit(self.slots@, self.buckets@.len()) && self.nothing@.len() == 0
    }

    /// The offers that the index holds under `name`; none where the name is
    /// unknown to it.
    pub closed spec fn bucket(&self, name: Seq<char>) -> Seq<ProviderView> {
        bucket_of(self.slots@, self.buckets@, name)
    }

    /// The index is the one of `catalog`: under each name it holds the
    /// offers of that capability in the catalog.
    pub open spec fn describes(&self, catalog: CatalogView) -> bool {
        forall|name: Seq<char>| #[trigger] self.bucket(name) == providers(catalog, name)
    }

    /// Builds the index of a catalog.
    pub fn build(catalog: &Catalog) -> (r: CapabilityIndex)
        ensures
            r.describes(catalog@),
    {
        let mut slots: StringHashMap<usize> = StringHashMap::new();
        let mut buckets: Vec<Vec<Provider>> = Vec::new();
        let ghost packages = catalog@.packages;
        let mut n: usize = 0;
        while n < catalog.packages.len()
            invariant
                n <= catalog.packages.len(),
                packages == catalog@.packages,
                slots_fit(slots@, buckets@.len()),
                forall|name: Seq<char>| #[trigger]
                    bucket_of(slots@, buckets@, name) == providers_among(packages, name, n as int),
            decreases catalog.packages.len() - n,
        {
            let package = &catalog.packages[n];
            let ghost view = packages[n as int];
            assert(view == package@);
            let mut k: usize = 0;
            proof {
                assert forall|name: Seq<char>| #[trigger]
                    bucket_of(slots@, buckets@, name) == providers_among(packages, name, n as int)
                        + package_offers(view, n as int, name, 0) by {
                    assert(providers_among(packages, name, n as int) + package_offers(
                        view,
                        n as int,
                        name,
                        0,
                    ) =~= providers_among(packages, name, n as int));
                }
            }
            while k < package.provides.len()
                invariant
                    k <= package.provides.len(),
                    n < catalog.packages.len(),
                    view == package@,
                    slots_fit(slots@, buckets@.len()),
                    forall|name: Seq<char>| #[trigger]
                        bucket_of(slots@, buckets@, name) == providers_among(
                            packages,
                            name,
                            n as int,
                        ) + package_offers(view, n as int, name, k as int),
                decreases package.provides.len() - k,
            {
                let entry = &package.provides[k];
                let offer = Provider { package: n, version: entry.provided_version() };
                let ghost slots0 = slots@;
                let ghost buckets0 = buckets@;
                add_offer(&mut slots, &mut buckets, &entry.name, offer);
                proof {
                    assert(view.effective_provides()[k as int] == entry@);
                    assert forall|name: Seq<char>| #[trigger]
                        bucket_of(slots@, buckets@, name) == providers_among(
                            packages,
                            name,
                            n as int,
                        ) + package_offers(view, n as int, name, k + 1) by {
                        let before = bucket_of(slots0, buckets0, name);
                        let first = providers_among(packages, name, n as int);
                        let rest = package_offers(view, n as int, name, k as int);
                        assert(before == first + rest);
                        if name == entry@.name {
                            assert((first + rest).push(offer@) =~= first + rest.push(offer@));
                        }
                    }
                }
                k += 1;
            }
            let offer = Provider { package: n, version: Some(package.version.clone()) };
            let ghost slots0 = slots@;
            let ghost buckets0 = buckets@;
            add_offer(&mut slots, &mut buckets, &package.name, offer);
            proof {
                assert(view.effective_provides()[k as int] == view.self_provide());
                assert(view.effective_provides().len() == k + 1);
                assert forall|name: Seq<char>| #[trigger]
                    bucket_of(slots@, buckets@, name) == providers_among(
                        packages,
                        name,
                        n + 1,
                    ) by {
                    let before = bucket_of(slots0, buckets0, name);
                    let first = providers_among(packages, name, n as int);
                    let rest = package_offers(view, n as int, name, k as int);
                    assert(before == first + rest);
                    if name == view.name {
                        assert((first + rest).push(offer@) =~= first + rest.push(offer@));
                    }
                }
            }
            n += 1;
        }
        CapabilityIndex { slots, buckets, nothing: Vec::new() }
    }

    /// The offers of capability `name`, in catalog order; none if the name is
    /// unknown.
    pub fn lookup(&self, name: &str) -> (r: &Vec<Provider>)
        ensures
            r.deep_view() == self.bucket(name@),
    {
        proof {
            use_type_invariant(self);
        }
        match self.slots.get(name) {
            Some(slot) => &self.buckets[*slot],
            None => {
                assert(self.nothing.deep_view() =~= Seq::empty());
                &self.nothing
            },
        }
    }
}


/// What stands at `o` comes from entry `e` of the effective provides list of
/// the package at `o.package`: the entry has the name `name` and offers the
/// version `o.version`.
pub open spec fn offer_from(catalog: CatalogView, name: Seq<char>, o: ProviderView, e: int) -> bool {
    &&& 0 <= o.package < catalog.packages.len()
    &&& 0 <= e < catalog.packages[o.package].effective_provides().len()
    &&& catalog.packages[o.package].effective_provides()[e].name == name
    &&& provided_version(catalog.packages[o.package].effective_provides()[e]) == o.version
}

proof fn lemma_package_offer_origin(p: PackageView, position: int, name: Seq<char>, m: int, k: int)
    requires
        0 <= m <= p.effective_provides().len(),
        0 <= k < package_offers(p, position, name, m).len(),
    ensures
        package_offers(p, position, name, m)[k].package == position,
        exists|e: int|
            0 <= e < m && (#[trigger] p.effective_provides()[e]).name == name && provided_version(
                p.effective_provides()[e],
            ) == package_offers(p, position, name, m)[k].version,
    decreases m,
{
    let rest = package_offers(p, position, name, m - 1);
    if k < rest.len() {
        lemma_package_offer_origin(p, position, name, m - 1, k);
        let e = choose|e: int|
            0 <= e < m - 1 && (#[trigger] p.effective_provides()[e]).name == name
                && provided_version(p.effective_provides()[e]) == rest[k].version;
        assert(0 <= e < m && p.effective_provides()[e].name == name);
    } else {
        let e = m - 1;
        assert(0 <= e < m && p.effective_provides()[e].name == name);
    }
}

proof fn lemma_among_origin(catalog: CatalogView, name: Seq<char>, n: int, k: int)
    requires
        0 <= n <= catalog.packages.len(),
        0 <= k < providers_among(catalog.packages, name, n).len(),
    ensures
        providers_among(catalog.packages, name, n)[k].package < n,
        exists|e: int| offer_from(catalog, name, providers_among(catalog.packages, name, n)[k], e),
    decreases n,
{
    let first = providers_among(catalog.packages, name, n - 1);
    let p = catalog.packages[n - 1];
    let m = p.effective_provides().len() as int;
    if k < first.len() {
        lemma_among_origin(catalog, name, n - 1, k);
    } else {
        lemma_package_offer_origin(p, n - 1, name, m, k - first.len());
        let o = package_offers(p, n - 1, name, m)[k - first.len()];
        let e = choose|e: int|
            0 <= e < m && (#[trigger] p.effective_provides()[e]).name == name && provided_version(
                p.effective_provides()[e],
            ) == o.version;
        assert(offer_from(catalog, name, o, e));
    }
}

/// Every offer that the index of a catalog holds under a name comes from an
/// entry of that name in the effective provides list of a package of the
/// catalog.
pub proof fn lemma_offer_origin(catalog: CatalogView, name: Seq<char>, k: int)
    requires
        0 <= k < providers(catalog, name).len(),
    ensures
        exists|e: int| offer_from(catalog, name, providers(catalog, name)[k], e),
{
    lemma_among_origin(catalog, name, catalog.packages.len() as int, k);
}

proof fn lemma_package_offer_listed(p: PackageView, position: int, name: Seq<char>, m: int, e: int)
    requires
        0 <= e < m <= p.effective_provides().len(),
        p.effective_provides()[e].name == name,
    ensures
        exists|k: int|
            0 <= k < package_offers(p, position, name, m).len() && #[trigger] package_offers(
                p,
                position,
                name,
                m,
            )[k] == (ProviderView {
                package: position,
                version: provided_version(p.effective_provides()[e]),
            }),
    decreases m,
{
    let rest = package_offers(p, position, name, m - 1);
    let wanted = ProviderView {
        package: position,
        version: provided_version(p.effective_provides()[e]),
    };
    if e < m - 1 {
        lemma_package_offer_listed(p, position, name, m - 1, e);
        let k = choose|k: int| 0 <= k < rest.len() && #[trigger] rest[k] == wanted;
        assert(package_offers(p, position, name, m)[k] == wanted);
    } else {
        let k = rest.len() as int;
        assert(package_offers(p, position, name, m)[k] == wanted);
    }
}

proof fn lemma_among_listed(catalog: CatalogView, name: Seq<char>, n: int, q: int, e: int)
    requires
        0 <= q < n <= catalog.packages.len(),
        0 <= e < catalog.packages[q].effective_provides().len(),
        catalog.packages[q].effective_provides()[e].name == name,
    ensures
        exists|k: int|
            0 <= k < providers_among(catalog.packages, name, n).len() && #[trigger] providers_among(
                catalog.packages,
                name,
                n,
            )[k] == (ProviderView {
                package: q,
                version: provided_version(catalog.packages[q].effective_provides()[e]),
            }),
    decreases n,
{
    let first = providers_among(catalog.packages, name, n - 1);
    let p = catalog.packages[n - 1];
    let m = p.effective_provides().len() as int;
    let last = package_offers(p, n - 1, name, m);
    let wanted = ProviderView {
        package: q,
        version: provided_version(catalog.packages[q].effective_provides()[e]),
    };
    if q < n - 1 {
        lemma_among_listed(catalog, name, n - 1, q, e);
        let k = choose|k: int| 0 <= k < first.len() && #[trigger] first[k] == wanted;
        assert(providers_among(catalog.packages, name, n)[k] == wanted);
    } else {
        lemma_package_offer_listed(p, q, name, m, e);
        let k = choose|k: int| 0 <= k < last.len() && #[trigger] last[k] == wanted;
        assert(providers_among(catalog.packages, name, n)[first.len() + k] == wanted);
    }
}

/// Every entry of the effective provides list of a package of the catalog
/// stands in the index of the catalog under its name.
pub proof fn lemma_offer_listed(catalog: CatalogView, q: int, e: int)
    requires
        0 <= q < catalog.packages.len(),
        0 <= e < catalog.packages[q].effective_provides().len(),
    ensures
        exists|k: int|
            0 <= k < providers(catalog, catalog.packages[q].effective_provides()[e].name).len()
                && #[trigger] providers(
                catalog,
                catalog.packages[q].effective_provides()[e].name,
            )[k] == (ProviderView {
                package: q,
                version: provided_version(catalog.packages[q].effective_provides()[e]),
            }),
{
    let name = catalog.packages[q].effective_provides()[e].name;
    let n = catalog.packages.len() as int;
    let wanted = ProviderView {
        package: q,
        version: provided_version(catalog.packages[q].effective_provides()[e]),
    };
    lemma_among_listed(catalog, name, n, q, e);
    let k = choose|k: int|
        0 <= k < providers_among(catalog.packages, name, n).len() && #[trigger] providers_among(
            catalog.packages,
            name,
            n,
        )[k] == wanted;
    assert(providers(catalog, name)[k] == wanted);
}

} // verus!
