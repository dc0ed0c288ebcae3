//! Laws of the satisfiability check.

use vstd::prelude::*;
use crate::capability::{CapabilityView, meets, provided_version, satisfies};
use crate::catalog::CatalogView;
use crate::index::{ProviderView, lemma_offer_listed, lemma_offer_origin, offer_from, providers};
use crate::order::{
    law_equal_interchangeable, law_less_transitive, law_reflexive, law_total, versions_wrap,
};
use crate::segment::Relation;
use crate::solve::{
    SolveError, best_offer, best_provider, lemma_best_offer, lemma_newest_named, newest_named,
    outcome, outranks, reachable, reached_in, root_of, rules_out, unmet,
};
use crate::version::{VersionView, version_relation};

verus! {

/// Some package of the catalog provides something that meets `req`.
pub open spec fn offered(catalog: CatalogView, req: CapabilityView) -> bool {
    exists|q: int, e: int|
        0 <= q < catalog.packages.len() && 0 <= e < catalog.packages[q].effective_provides().len()
            && meets(#[trigger] catalog.packages[q].effective_provides()[e], req)
}

/// A requirement gets a provider exactly where some package of the catalog
/// provides something that meets it, and the provider chosen is a package
/// that does.
pub proof fn law_provider_chosen_iff_offered(catalog: CatalogView, req: CapabilityView)
    ensures
        best_provider(catalog, req) is Some <==> offered(catalog, req),
        best_provider(catalog, req) matches Some(q) ==> 0 <= q < catalog.packages.len() && exists|
            e: int,
        |
            0 <= e < catalog.packages[q].effective_provides().len() && meets(
                #[trigger] catalog.packages[q].effective_provides()[e],
                req,
            ),
{
    let offers = providers(catalog, req.name);
    lemma_best_offer(offers, req, offers.len() as int);
    if let Some(k) = best_offer(offers, req, offers.len() as int) {
        lemma_offer_origin(catalog, req.name, k);
        let e = choose|e: int| offer_from(catalog, req.name, offers[k], e);
        let q = offers[k].package;
        assert(meets(catalog.packages[q].effective_provides()[e], req));
    } else if offered(catalog, req) {
        let (q, e) = choose|q: int, e: int|
            0 <= q < catalog.packages.len() && 0 <= e
                < catalog.packages[q].effective_provides().len() && meets(
                #[trigger] catalog.packages[q].effective_provides()[e],
                req,
            );
        lemma_offer_listed(catalog, q, e);
        let entry = catalog.packages[q].effective_provides()[e];
        let found = ProviderView { package: q, version: provided_version(entry) };
        let k = choose|k: int| 0 <= k < offers.len() && #[trigger] offers[k] == found;
        assert(satisfies(req, offers[k].version));
    }
}

/// Every package provides its own name at exactly its own version, whatever
/// its provides list holds. So a requirement for a package of the catalog by
/// its name and exactly its version is met by that package and gets a
/// provider.
pub proof fn law_self_provide(catalog: CatalogView, p: int)
    requires
        0 <= p < catalog.packages.len(),
    ensures
        catalog.packages[p].effective_provides().last() == catalog.packages[p].self_provide(),
        meets(catalog.packages[p].self_provide(), catalog.packages[p].self_provide()),
        best_provider(catalog, catalog.packages[p].self_provide()) is Some,
{
    let package = catalog.packages[p];
    let e = package.provides.len() as int;
    law_reflexive(package.version);
    assert(meets(package.effective_provides()[e], package.self_provide()));
    law_provider_chosen_iff_offered(catalog, package.self_provide());
}

/// A check fails with `PackageNotFound`, and with nothing else, exactly
/// where no package of the catalog has the name asked for.
pub proof fn law_unknown_package(catalog: CatalogView, name: Seq<char>)
    ensures
        outcome(catalog, name) is Err <==> forall|k: int|
            0 <= k < catalog.packages.len() ==> (#[trigger] catalog.packages[k]).name != name,
        outcome(catalog, name) is Err ==> outcome(catalog, name) == Err::<bool, SolveError>(
            SolveError::PackageNotFound,
        ),
{
    lemma_newest_named(catalog.packages, name, catalog.packages.len() as int);
}

/// Where the package checked has a requirement that nothing in the catalog
/// meets, the answer is "no".
pub proof fn law_missing_provider(catalog: CatalogView, name: Seq<char>, i: int)
    requires
        root_of(catalog, name) matches Some(root) && 0 <= i
            < catalog.packages[root].requires.len() && !offered(
            catalog,
            catalog.packages[root].requires[i],
        ),
    ensures
        outcome(catalog, name) == Ok::<bool, SolveError>(false),
{
    let root = root_of(catalog, name).unwrap();
    law_provider_chosen_iff_offered(catalog, catalog.packages[root].requires[i]);
    assert(reached_in(catalog, root, root, 0));
    assert(reachable(catalog, root, root));
    assert(unmet(catalog, root));
}

/// Where a package of the closure provides what another package of the
/// closure conflicts with or obsoletes, the answer is "no".
pub proof fn law_conflict(catalog: CatalogView, name: Seq<char>, p: int, q: int)
    requires
        root_of(catalog, name) matches Some(root) && reachable(catalog, root, p) && reachable(
            catalog,
            root,
            q,
        ),
        rules_out(catalog.packages[p], catalog.packages[q]),
    ensures
        outcome(catalog, name) == Ok::<bool, SolveError>(false),
{
}


/// The versions `x`, `y` and `z` do not wrap, where all three are there.
pub open spec fn in_line(x: Option<VersionView>, y: Option<VersionView>, z: Option<VersionView>)
    -> bool {
    x is Some && y is Some && z is Some ==> !versions_wrap(x->0, y->0, z->0)
}

/// No three of the versions on offer wrap, so that the version ordering is
/// transitive on them.
pub open spec fn offers_in_line(offers: Seq<ProviderView>) -> bool {
    forall|i: int, j: int, k: int|
        0 <= i < offers.len() && 0 <= j < offers.len() && 0 <= k < offers.len() ==> in_line(
            (#[trigger] offers[i]).version,
            (#[trigger] offers[j]).version,
            (#[trigger] offers[k]).version,
        )
}

/// No offer is preferred to itself.
proof fn lemma_no_rank_above_self(x: Option<VersionView>)
    ensures
        !outranks(x, x),
{
    if let Some(a) = x {
        law_reflexive(a);
    }
}

/// Of two offers at most one is preferred to the other.
proof fn lemma_rank_one_way(x: Option<VersionView>, y: Option<VersionView>)
    ensures
        outranks(x, y) ==> !outranks(y, x),
{
    if let (Some(a), Some(b)) = (x, y) {
        law_total(a, b);
    }
}

/// An offer preferred to `y` is preferred to whatever is not preferred to
/// `y`.
proof fn lemma_rank_carries(x: Option<VersionView>, y: Option<VersionView>, z: Option<VersionView>)
    requires
        !outranks(x, y),
        outranks(z, y),
        in_line(x, y, z),
    ensures
        outranks(z, x),
{
    if let (Some(a), Some(b), Some(c)) = (x, y, z) {
        law_total(a, b);
        law_total(b, c);
        law_total(a, c);
        if version_relation(a, b) == Relation::Equal {
            law_equal_interchangeable(a, b, c);
        } else {
            law_less_transitive(a, b, c);
        }
    }
}

/// The offer chosen is the best in this sense, where no three of the
/// versions on offer wrap: it satisfies the requirement, no offer that
/// satisfies the requirement is preferred to it, and it is preferred to
/// every earlier offer that satisfies the requirement. So of the offers at
/// the greatest version the first is chosen.
pub proof fn law_best_offer_is_first_greatest(offers: Seq<ProviderView>, req: CapabilityView, n: int)
    requires
        0 <= n <= offers.len(),
        offers_in_line(offers),
    ensures
        match best_offer(offers, req, n) {
            None => forall|k: int| 0 <= k < n ==> !satisfies(req, (#[trigger] offers[k]).version),
            Some(b) => {
                &&& 0 <= b < n
                &&& satisfies(req, offers[b].version)
                &&& forall|k: int|
                    0 <= k < n && satisfies(req, (#[trigger] offers[k]).version) ==> !outranks(
                        offers[k].version,
                        offers[b].version,
                    )
                &&& forall|k: int|
                    0 <= k < b && satisfies(req, (#[trigger] offers[k]).version) ==> outranks(
                        offers[b].version,
                        offers[k].version,
                    )
            },
        },
    decreases n,
{
    if n > 0 {
        law_best_offer_is_first_greatest(offers, req, n - 1);
        let last = offers[n - 1].version;
        lemma_no_rank_above_self(last);
        if satisfies(req, last) {
            if let Some(b) = best_offer(offers, req, n - 1) {
                if outranks(last, offers[b].version) {
                    assert forall|k: int|
                        0 <= k < n - 1 && satisfies(
                            req,
                            (#[trigger] offers[k]).version,
                        ) implies outranks(last, offers[k].version) && !outranks(
                        offers[k].version,
                        last,
                    ) by {
                        assert(in_line(offers[k].version, offers[b].version, offers[n - 1].version));
                        lemma_rank_carries(offers[k].version, offers[b].version, last);
                        lemma_rank_one_way(last, offers[k].version);
                    }
                }
            }
        }
    }
}

/// No three of the versions of the packages named `name` wrap.
pub open spec fn named_in_line(catalog: CatalogView, name: Seq<char>) -> bool {
    forall|i: int, j: int, k: int|
        0 <= i < catalog.packages.len() && 0 <= j < catalog.packages.len() && 0 <= k
            < catalog.packages.len() && (#[trigger] catalog.packages[i]).name == name
            && (#[trigger] catalog.packages[j]).name == name && (
        #[trigger] catalog.packages[k]).name == name ==> !versions_wrap(
            catalog.packages[i].version,
            catalog.packages[j].version,
            catalog.packages[k].version,
        )
}

proof fn lemma_newest_is_first_greatest(catalog: CatalogView, name: Seq<char>, n: int)
    requires
        0 <= n <= catalog.packages.len(),
        named_in_line(catalog, name),
    ensures
        match newest_named(catalog.packages, name, n) {
            None => forall|k: int| 0 <= k < n ==> (#[trigger] catalog.packages[k]).name != name,
            Some(b) => {
                &&& 0 <= b < n
                &&& catalog.packages[b].name == name
                &&& forall|k: int|
                    0 <= k < n && (#[trigger] catalog.packages[k]).name == name
                        ==> version_relation(catalog.packages[k].version, catalog.packages[b].version)
                        != Relation::Greater
                &&& forall|k: int|
                    0 <= k < b && (#[trigger] catalog.packages[k]).name == name
                        ==> version_relation(catalog.packages[k].version, catalog.packages[b].version)
                        == Relation::Less
            },
        },
    decreases n,
{
    if n > 0 {
        lemma_newest_is_first_greatest(catalog, name, n - 1);
        let packages = catalog.packages;
        let last = packages[n - 1];
        law_reflexive(last.version);
        if last.name == name {
            if let Some(b) = newest_named(packages, name, n - 1) {
                if version_relation(last.version, packages[b].version) == Relation::Greater {
                    assert forall|k: int|
                        0 <= k < n - 1 && (#[trigger] packages[k]).name == name implies version_relation(
                        packages[k].version,
                        last.version,
                    ) == Relation::Less by {
                        assert(!versions_wrap(
                            packages[k].version,
                            packages[b].version,
                            packages[n - 1].version,
                        ));
                        lemma_rank_carries(
                            Some(packages[k].version),
                            Some(packages[b].version),
                            Some(last.version),
                        );
                        law_total(packages[k].version, last.version);
                    }
                }
            }
        }
    }
}

/// The package that a check starts from is the newest of its name, where no
/// three versions of packages of that name wrap: it has the name, no package
/// of the name has a greater version, and every earlier package of the name
/// has a lesser one. So of the newest packages of the name the first in the
/// catalog is taken.
pub proof fn law_root_is_first_newest(catalog: CatalogView, name: Seq<char>)
    requires
        named_in_line(catalog, name),
    ensures
        match root_of(catalog, name) {
            None => forall|k: int|
                0 <= k < catalog.packages.len() ==> (#[trigger] catalog.packages[k]).name != name,
            Some(b) => {
                &&& 0 <= b < catalog.packages.len()
                &&& catalog.packages[b].name == name
                &&& forall|k: int|
                    0 <= k < catalog.packages.len() && (#[trigger] catalog.packages[k]).name == name
                        ==> version_relation(catalog.packages[k].version, catalog.packages[b].version)
                        != Relation::Greater
                &&& forall|k: int|
                    0 <= k < b && (#[trigger] catalog.packages[k]).name == name
                        ==> version_relation(catalog.packages[k].version, catalog.packages[b].version)
                        == Relation::Less
            },
        },
{
    lemma_newest_is_first_greatest(catalog, name, catalog.packages.len() as int);
}

} // verus!
